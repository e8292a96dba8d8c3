//! Message definitions of the Drawpile protocol and their binary encoding.
//!
//! A message is framed as: payload length (16 bit big endian), message type,
//! user ID and the payload itself.
use super::serialization as ser;
use super::serialization::{
    frame_message, frame_message_declared, push_bool, push_bytes, push_i32, push_i8, push_str, push_u16, push_u16s,
    push_u32, push_u8, read_bool, read_i32, read_i8, read_remaining_bytes, read_remaining_u16s,
    read_str, read_u16, read_u32, read_u8, DeserializationError,
};
use vstd::prelude::*;

verus! {

/// The error returned when a payload's length is outside of what its type accepts
pub open spec fn length_error(message_type: u8, len: nat) -> DeserializationError {
    DeserializationError {
        user_id: 0,
        message_type,
        payload_len: len as usize,
        error: "Invalid payload length",
    }
}

/// Check that the payload length is within `min..=max`
fn check_len(buf: &[u8], min: usize, max: usize, message_type: u8) -> (r: Result<
    (),
    DeserializationError,
>)
    ensures
        r is Ok <==> min <= buf@.len() <= max,
        r matches Err(e) ==> e == length_error(message_type, buf@.len()),
{
    if buf.len() < min || buf.len() > max {
        Err(
            DeserializationError {
                user_id: 0,
                message_type,
                payload_len: buf.len(),
                error: "Invalid payload length",
            },
        )
    } else {
        Ok(())
    }
}

#[derive(Debug, PartialEq)]
pub struct DisconnectMessage {
    pub reason: u8,
    pub message: String,
}

impl DisconnectMessage {
    /// The payload bytes of this message
    pub open spec fn spec_payload(&self) -> Seq<u8> {
        ser::enc_u8(self.reason) + ser::enc_str(self.message@)
    }

    /// Whether a payload of this length is accepted
    pub open spec fn spec_len_ok(p: Seq<u8>) -> bool {
        1 <= p.len() <= 65535
    }

    /// The error returned for a rejected payload
    pub open spec fn spec_error(p: Seq<u8>) -> DeserializationError {
        length_error(1, p.len())
    }

    /// Whether this message holds the fields decoded from payload `p`
    pub open spec fn spec_decodes(&self, p: Seq<u8>) -> bool {
        &&& self.reason == p[0]
        &&& self.message@ == ser::dec_str(p.subrange(1, p.len() as int))
    }

    /// Whether this message can be encoded and read back
    pub open spec fn spec_valid(&self) -> bool {
        Self::spec_len_ok(self.spec_payload())
    }

    fn deserialize(buf: &[u8]) -> (r: Result<Self, DeserializationError>)
        ensures
            r is Ok <==> Self::spec_len_ok(buf@),
            r matches Ok(m) ==> m.spec_decodes(buf@),
            r matches Err(e) ==> e == Self::spec_error(buf@),
    {
        if let Err(e) = check_len(buf, 1, 65535, 1) {
            return Err(e);
        }
        let reason = read_u8(buf, 0);
        let message = read_str(buf, 1, buf.len());
        Ok(Self { reason, message })
    }

    fn serialize(&self, user_id: u8) -> (r: Vec<u8>)
        ensures
            r@ == ser::frame(1, user_id, self.spec_payload()),
    {
        let mut w: Vec<u8> = Vec::new();
        push_u8(&mut w, self.reason);
        push_str(&mut w, self.message.as_str());
        assert(w@ =~= self.spec_payload());
        frame_message(1, user_id, w.as_slice())
    }

    /// A valid message is read back from its own payload
    pub proof fn lemma_roundtrip(&self)
        requires
            self.spec_valid(),
        ensures
            Self::spec_len_ok(self.spec_payload()),
            self.spec_decodes(self.spec_payload()),
    {
        let p = self.spec_payload();
        assert(p.subrange(0, 1) =~= ser::enc_u8(self.reason));
        ser::lemma_u8_at(p, 0, self.reason);
        assert(p.subrange(1, p.len() as int) =~= ser::enc_str(self.message@));
        ser::lemma_str_roundtrip(self.message@);
    }

    /// Whether the payload is decoded without loss: booleans are 0 or 1 and
    /// strings are valid UTF-8
    pub open spec fn spec_canonical(p: Seq<u8>) -> bool {
        &&& vstd::utf8::valid_utf8(p.subrange(1, p.len() as int))
    }

    /// A payload that is decoded without loss is the encoding of what it decodes to
    pub proof fn lemma_reencode(&self, p: Seq<u8>)
        requires
            Self::spec_len_ok(p),
            self.spec_decodes(p),
            Self::spec_canonical(p),
        ensures
            self.spec_payload() == p,
    {
        ser::lemma_u8_reencode(p, 0);
        ser::lemma_str_reencode(p.subrange(1, p.len() as int));
        assert(p =~= p.subrange(0, 1) + p.subrange(1, p.len() as int));
    }
}

#[derive(Debug, PartialEq)]
pub struct JoinMessage {
    pub flags: u8,
    pub name: String,
    pub avatar: Vec<u8>,
}

impl JoinMessage {
    pub const FLAGS_AUTH: u8 = 0x0;
    pub const FLAGS_MOD: u8 = 0x1;
    pub const FLAGS_BOT: u8 = 0x2;

    /// The payload bytes of this message. The name is prefixed with its
    /// length in bytes (modulo 256).
    pub open spec fn spec_payload(&self) -> Seq<u8> {
        ser::enc_u8(self.flags) + ser::enc_u8((ser::enc_str(self.name@).len() % 256) as u8)
            + ser::enc_str(self.name@) + self.avatar@
    }

    /// The payload length declared in the message header: one less than the
    /// payload's length, as the header counts the name length byte out
    pub open spec fn spec_declared_len(&self) -> u16 {
        ((1 + ser::enc_str(self.name@).len() + self.avatar@.len()) % 0x1_0000) as u16
    }

    /// Whether the payload is accepted: its length is in bounds and the
    /// name fits in what remains after the two leading bytes
    pub open spec fn spec_len_ok(p: Seq<u8>) -> bool {
        &&& 2 <= p.len() <= 65535
        &&& p[1] <= p.len() - 2
    }

    /// The error returned for a rejected payload
    pub open spec fn spec_error(p: Seq<u8>) -> DeserializationError {
        if !(2 <= p.len() <= 65535) {
            length_error(32, p.len())
        } else {
            DeserializationError {
                user_id: 0,
                message_type: 32,
                payload_len: p.len() as usize,
                error: "Join::name field is too long",
            }
        }
    }

    /// Whether this message holds the fields decoded from payload `p`
    pub open spec fn spec_decodes(&self, p: Seq<u8>) -> bool {
        &&& self.flags == p[0]
        &&& self.name@ == ser::dec_str(p.subrange(2, 2 + p[1]))
        &&& self.avatar@ == p.subrange(2 + p[1], p.len() as int)
    }

    /// Whether this message can be encoded and read back: the name is at
    /// most 255 bytes long and the payload is not too long
    pub open spec fn spec_valid(&self) -> bool {
        &&& ser::enc_str(self.name@).len() <= 255
        &&& Self::spec_len_ok(self.spec_payload())
    }

    fn deserialize(buf: &[u8]) -> (r: Result<Self, DeserializationError>)
        ensures
            r is Ok <==> Self::spec_len_ok(buf@),
            r matches Ok(m) ==> m.spec_decodes(buf@),
            r matches Err(e) ==> e == Self::spec_error(buf@),
    {
        if let Err(e) = check_len(buf, 2, 65535, 32) {
            return Err(e);
        }
        let flags = read_u8(buf, 0);
        let name_len = read_u8(buf, 1) as usize;
        if buf.len() - 2 < name_len {
            return Err(
                DeserializationError {
                    user_id: 0,
                    message_type: 32,
                    payload_len: buf.len(),
                    error: "Join::name field is too long",
                },
            );
        }
        let name = read_str(buf, 2, 2 + name_len);
        let avatar = read_remaining_bytes(buf, 2 + name_len);
        Ok(Self { flags, name, avatar })
    }

    fn serialize(&self, user_id: u8) -> (r: Vec<u8>)
        ensures
            r@ == ser::frame_declared(32, user_id, self.spec_declared_len(), self.spec_payload()),
    {
        let mut w: Vec<u8> = Vec::new();
        push_u8(&mut w, self.flags);
        let name_len = self.name.as_str().as_bytes().len();
        push_u8(&mut w, (name_len % 256) as u8);
        push_str(&mut w, self.name.as_str());
        push_bytes(&mut w, self.avatar.as_slice());
        assert(w@ =~= self.spec_payload());
        let declared = ((1 + name_len % 0x1_0000 + self.avatar.len() % 0x1_0000) % 0x1_0000) as u16;
        assert(declared == self.spec_declared_len()) by (nonlinear_arith)
            requires
                declared == (1 + name_len % 0x1_0000 + self.avatar@.len() % 0x1_0000) % 0x1_0000,
                name_len == ser::enc_str(self.name@).len(),
        ;
        frame_message_declared(32, user_id, declared, w.as_slice())
    }

    /// A valid message is read back from its own payload
    pub proof fn lemma_roundtrip(&self)
        requires
            self.spec_valid(),
        ensures
            Self::spec_len_ok(self.spec_payload()),
            self.spec_decodes(self.spec_payload()),
    {
        let p = self.spec_payload();
        let n = ser::enc_str(self.name@).len() as int;
        assert(p.subrange(0, 1) =~= ser::enc_u8(self.flags));
        ser::lemma_u8_at(p, 0, self.flags);
        assert(p.subrange(1, 2) =~= ser::enc_u8((n % 256) as u8));
        ser::lemma_u8_at(p, 1, (n % 256) as u8);
        assert(p.subrange(2, 2 + n) =~= ser::enc_str(self.name@));
        ser::lemma_str_roundtrip(self.name@);
        assert(p.subrange(2 + n, p.len() as int) =~= self.avatar@);
    }

    /// Whether the payload is decoded without loss: the name is valid UTF-8
    pub open spec fn spec_canonical(p: Seq<u8>) -> bool {
        vstd::utf8::valid_utf8(p.subrange(2, 2 + p[1]))
    }

    /// A payload that is decoded without loss is the encoding of what it decodes to
    pub proof fn lemma_reencode(&self, p: Seq<u8>)
        requires
            Self::spec_len_ok(p),
            self.spec_decodes(p),
            Self::spec_canonical(p),
        ensures
            self.spec_payload() == p,
    {
        let n = p[1] as int;
        ser::lemma_str_reencode(p.subrange(2, 2 + n));
        ser::lemma_u8_reencode(p, 0);
        ser::lemma_u8_reencode(p, 1);
        assert(ser::enc_str(self.name@).len() == n);
        assert(p =~= p.subrange(0, 1) + p.subrange(1, 2) + p.subrange(2, 2 + n) + p.subrange(
            2 + n,
            p.len() as int,
        ));
    }
}

#[derive(Debug, PartialEq)]
pub struct ChatMessage {
    pub flags: u8,
    pub message: String,
}

impl ChatMessage {
    pub const FLAGS_BYPASS: u8 = 0x0;
    pub const FLAGS_SHOUT: u8 = 0x1;
    pub const FLAGS_ACTION: u8 = 0x2;
    pub const FLAGS_PIN: u8 = 0x3;

    /// The payload bytes of this message
    pub open spec fn spec_payload(&self) -> Seq<u8> {
        ser::enc_u8(self.flags) + ser::enc_str(self.message@)
    }

    /// Whether a payload of this length is accepted
    pub open spec fn spec_len_ok(p: Seq<u8>) -> bool {
        1 <= p.len() <= 65535
    }

    /// The error returned for a rejected payload
    pub open spec fn spec_error(p: Seq<u8>) -> DeserializationError {
        length_error(35, p.len())
    }

    /// Whether this message holds the fields decoded from payload `p`
    pub open spec fn spec_decodes(&self, p: Seq<u8>) -> bool {
        &&& self.flags == p[0]
        &&& self.message@ == ser::dec_str(p.subrange(1, p.len() as int))
    }

    /// Whether this message can be encoded and read back
    pub open spec fn spec_valid(&self) -> bool {
        Self::spec_len_ok(self.spec_payload())
    }

    fn deserialize(buf: &[u8]) -> (r: Result<Self, DeserializationError>)
        ensures
            r is Ok <==> Self::spec_len_ok(buf@),
            r matches Ok(m) ==> m.spec_decodes(buf@),
            r matches Err(e) ==> e == Self::spec_error(buf@),
    {
        if let Err(e) = check_len(buf, 1, 65535, 35) {
            return Err(e);
        }
        let flags = read_u8(buf, 0);
        let message = read_str(buf, 1, buf.len());
        Ok(Self { flags, message })
    }

    fn serialize(&self, user_id: u8) -> (r: Vec<u8>)
        ensures
            r@ == ser::frame(35, user_id, self.spec_payload()),
    {
        let mut w: Vec<u8> = Vec::new();
        push_u8(&mut w, self.flags);
        push_str(&mut w, self.message.as_str());
        assert(w@ =~= self.spec_payload());
        frame_message(35, user_id, w.as_slice())
    }

    /// A valid message is read back from its own payload
    pub proof fn lemma_roundtrip(&self)
        requires
            self.spec_valid(),
        ensures
            Self::spec_len_ok(self.spec_payload()),
            self.spec_decodes(self.spec_payload()),
    {
        let p = self.spec_payload();
        assert(p.subrange(0, 1) =~= ser::enc_u8(self.flags));
        ser::lemma_u8_at(p, 0, self.flags);
        assert(p.subrange(1, p.len() as int) =~= ser::enc_str(self.message@));
        ser::lemma_str_roundtrip(self.message@);
    }

    /// Whether the payload is decoded without loss: booleans are 0 or 1 and
    /// strings are valid UTF-8
    pub open spec fn spec_canonical(p: Seq<u8>) -> bool {
        &&& vstd::utf8::valid_utf8(p.subrange(1, p.len() as int))
    }

    /// A payload that is decoded without loss is the encoding of what it decodes to
    pub proof fn lemma_reencode(&self, p: Seq<u8>)
        requires
            Self::spec_len_ok(p),
            self.spec_decodes(p),
            Self::spec_canonical(p),
        ensures
            self.spec_payload() == p,
    {
        ser::lemma_u8_reencode(p, 0);
        ser::lemma_str_reencode(p.subrange(1, p.len() as int));
        assert(p =~= p.subrange(0, 1) + p.subrange(1, p.len() as int));
    }
}

#[derive(Debug, PartialEq)]
pub struct PrivateChatMessage {
    pub target: u8,
    pub flags: u8,
    pub message: String,
}

impl PrivateChatMessage {
    pub const FLAGS_ACTION: u8 = 0x0;

    /// The payload bytes of this message
    pub open spec fn spec_payload(&self) -> Seq<u8> {
        ser::enc_u8(self.target) + ser::enc_u8(self.flags) + ser::enc_str(self.message@)
    }

    /// Whether a payload of this length is accepted
    pub open spec fn spec_len_ok(p: Seq<u8>) -> bool {
        2 <= p.len() <= 65535
    }

    /// The error returned for a rejected payload
    pub open spec fn spec_error(p: Seq<u8>) -> DeserializationError {
        length_error(38, p.len())
    }

    /// Whether this message holds the fields decoded from payload `p`
    pub open spec fn spec_decodes(&self, p: Seq<u8>) -> bool {
        &&& self.target == p[0]
        &&& self.flags == p[1]
        &&& self.message@ == ser::dec_str(p.subrange(2, p.len() as int))
    }

    /// Whether this message can be encoded and read back
    pub open spec fn spec_valid(&self) -> bool {
        Self::spec_len_ok(self.spec_payload())
    }

    fn deserialize(buf: &[u8]) -> (r: Result<Self, DeserializationError>)
        ensures
            r is Ok <==> Self::spec_len_ok(buf@),
            r matches Ok(m) ==> m.spec_decodes(buf@),
            r matches Err(e) ==> e == Self::spec_error(buf@),
    {
        if let Err(e) = check_len(buf, 2, 65535, 38) {
            return Err(e);
        }
        let target = read_u8(buf, 0);
        let flags = read_u8(buf, 1);
        let message = read_str(buf, 2, buf.len());
        Ok(Self { target, flags, message })
    }

    fn serialize(&self, user_id: u8) -> (r: Vec<u8>)
        ensures
            r@ == ser::frame(38, user_id, self.spec_payload()),
    {
        let mut w: Vec<u8> = Vec::new();
        push_u8(&mut w, self.target);
        push_u8(&mut w, self.flags);
        push_str(&mut w, self.message.as_str());
        assert(w@ =~= self.spec_payload());
        frame_message(38, user_id, w.as_slice())
    }

    /// A valid message is read back from its own payload
    pub proof fn lemma_roundtrip(&self)
        requires
            self.spec_valid(),
        ensures
            Self::spec_len_ok(self.spec_payload()),
            self.spec_decodes(self.spec_payload()),
    {
        let p = self.spec_payload();
        assert(p.subrange(0, 1) =~= ser::enc_u8(self.target));
        ser::lemma_u8_at(p, 0, self.target);
        assert(p.subrange(1, 2) =~= ser::enc_u8(self.flags));
        ser::lemma_u8_at(p, 1, self.flags);
        assert(p.subrange(2, p.len() as int) =~= ser::enc_str(self.message@));
        ser::lemma_str_roundtrip(self.message@);
    }

    /// Whether the payload is decoded without loss: booleans are 0 or 1 and
    /// strings are valid UTF-8
    pub open spec fn spec_canonical(p: Seq<u8>) -> bool {
        &&& vstd::utf8::valid_utf8(p.subrange(2, p.len() as int))
    }

    /// A payload that is decoded without loss is the encoding of what it decodes to
    pub proof fn lemma_reencode(&self, p: Seq<u8>)
        requires
            Self::spec_len_ok(p),
            self.spec_decodes(p),
            Self::spec_canonical(p),
        ensures
            self.spec_payload() == p,
    {
        ser::lemma_u8_reencode(p, 0);
        ser::lemma_u8_reencode(p, 1);
        ser::lemma_str_reencode(p.subrange(2, p.len() as int));
        assert(p =~= p.subrange(0, 1) + p.subrange(1, 2) + p.subrange(2, p.len() as int));
    }
}

#[derive(Debug, PartialEq)]
pub struct LaserTrailMessage {
    pub color: u32,
    pub persistence: u8,
}

impl LaserTrailMessage {
    /// The payload bytes of this message
    pub open spec fn spec_payload(&self) -> Seq<u8> {
        ser::enc_u32(self.color) + ser::enc_u8(self.persistence)
    }

    /// Whether a payload of this length is accepted
    pub open spec fn spec_len_ok(p: Seq<u8>) -> bool {
        5 <= p.len() <= 5
    }

    /// The error returned for a rejected payload
    pub open spec fn spec_error(p: Seq<u8>) -> DeserializationError {
        length_error(65, p.len())
    }

    /// Whether this message holds the fields decoded from payload `p`
    pub open spec fn spec_decodes(&self, p: Seq<u8>) -> bool {
        &&& self.color == ser::dec_u32(p, 0)
        &&& self.persistence == p[4]
    }

    /// Whether this message can be encoded and read back
    pub open spec fn spec_valid(&self) -> bool {
        Self::spec_len_ok(self.spec_payload())
    }

    fn deserialize(buf: &[u8]) -> (r: Result<Self, DeserializationError>)
        ensures
            r is Ok <==> Self::spec_len_ok(buf@),
            r matches Ok(m) ==> m.spec_decodes(buf@),
            r matches Err(e) ==> e == Self::spec_error(buf@),
    {
        if let Err(e) = check_len(buf, 5, 5, 65) {
            return Err(e);
        }
        let color = read_u32(buf, 0);
        let persistence = read_u8(buf, 4);
        Ok(Self { color, persistence })
    }

    fn serialize(&self, user_id: u8) -> (r: Vec<u8>)
        ensures
            r@ == ser::frame(65, user_id, self.spec_payload()),
    {
        let mut w: Vec<u8> = Vec::new();
        push_u32(&mut w, self.color);
        push_u8(&mut w, self.persistence);
        assert(w@ =~= self.spec_payload());
        frame_message(65, user_id, w.as_slice())
    }

    /// A valid message is read back from its own payload
    pub proof fn lemma_roundtrip(&self)
        requires
            self.spec_valid(),
        ensures
            Self::spec_len_ok(self.spec_payload()),
            self.spec_decodes(self.spec_payload()),
    {
        let p = self.spec_payload();
        assert(p.subrange(0, 4) =~= ser::enc_u32(self.color));
        ser::lemma_u32_at(p, 0, self.color);
        assert(p.subrange(4, 5) =~= ser::enc_u8(self.persistence));
        ser::lemma_u8_at(p, 4, self.persistence);
    }

    /// Whether the payload is decoded without loss: booleans are 0 or 1 and
    /// strings are valid UTF-8
    pub open spec fn spec_canonical(p: Seq<u8>) -> bool {
        true
    }

    /// A payload that is decoded without loss is the encoding of what it decodes to
    pub proof fn lemma_reencode(&self, p: Seq<u8>)
        requires
            Self::spec_len_ok(p),
            self.spec_decodes(p),
            Self::spec_canonical(p),
        ensures
            self.spec_payload() == p,
    {
        ser::lemma_u32_reencode(p, 0);
        ser::lemma_u8_reencode(p, 4);
        assert(p =~= p.subrange(0, 4) + p.subrange(4, 5));
    }
}

#[derive(Debug, PartialEq)]
pub struct MovePointerMessage {
    pub x: i32,
    pub y: i32,
}

impl MovePointerMessage {
    /// The payload bytes of this message
    pub open spec fn spec_payload(&self) -> Seq<u8> {
        ser::enc_i32(self.x) + ser::enc_i32(self.y)
    }

    /// Whether a payload of this length is accepted
    pub open spec fn spec_len_ok(p: Seq<u8>) -> bool {
        8 <= p.len() <= 8
    }

    /// The error returned for a rejected payload
    pub open spec fn spec_error(p: Seq<u8>) -> DeserializationError {
        length_error(66, p.len())
    }

    /// Whether this message holds the fields decoded from payload `p`
    pub open spec fn spec_decodes(&self, p: Seq<u8>) -> bool {
        &&& self.x == ser::dec_i32(p, 0)
        &&& self.y == ser::dec_i32(p, 4)
    }

    /// Whether this message can be encoded and read back
    pub open spec fn spec_valid(&self) -> bool {
        Self::spec_len_ok(self.spec_payload())
    }

    fn deserialize(buf: &[u8]) -> (r: Result<Self, DeserializationError>)
        ensures
            r is Ok <==> Self::spec_len_ok(buf@),
            r matches Ok(m) ==> m.spec_decodes(buf@),
            r matches Err(e) ==> e == Self::spec_error(buf@),
    {
        if let Err(e) = check_len(buf, 8, 8, 66) {
            return Err(e);
        }
        let x = read_i32(buf, 0);
        let y = read_i32(buf, 4);
        Ok(Self { x, y })
    }

    fn serialize(&self, user_id: u8) -> (r: Vec<u8>)
        ensures
            r@ == ser::frame(66, user_id, self.spec_payload()),
    {
        let mut w: Vec<u8> = Vec::new();
        push_i32(&mut w, self.x);
        push_i32(&mut w, self.y);
        assert(w@ =~= self.spec_payload());
        frame_message(66, user_id, w.as_slice())
    }

    /// A valid message is read back from its own payload
    pub proof fn lemma_roundtrip(&self)
        requires
            self.spec_valid(),
        ensures
            Self::spec_len_ok(self.spec_payload()),
            self.spec_decodes(self.spec_payload()),
    {
        let p = self.spec_payload();
        assert(p.subrange(0, 4) =~= ser::enc_i32(self.x));
        ser::lemma_i32_at(p, 0, self.x);
        assert(p.subrange(4, 8) =~= ser::enc_i32(self.y));
        ser::lemma_i32_at(p, 4, self.y);
    }

    /// Whether the payload is decoded without loss: booleans are 0 or 1 and
    /// strings are valid UTF-8
    pub open spec fn spec_canonical(p: Seq<u8>) -> bool {
        true
    }

    /// A payload that is decoded without loss is the encoding of what it decodes to
    pub proof fn lemma_reencode(&self, p: Seq<u8>)
        requires
            Self::spec_len_ok(p),
            self.spec_decodes(p),
            Self::spec_canonical(p),
        ensures
            self.spec_payload() == p,
    {
        ser::lemma_i32_reencode(p, 0);
        ser::lemma_i32_reencode(p, 4);
        assert(p =~= p.subrange(0, 4) + p.subrange(4, 8));
    }
}

#[derive(Debug, PartialEq)]
pub struct LayerACLMessage {
    pub id: u16,
    pub flags: u8,
    pub exclusive: Vec<u8>,
}

impl LayerACLMessage {
    /// The payload bytes of this message
    pub open spec fn spec_payload(&self) -> Seq<u8> {
        ser::enc_u16(self.id) + ser::enc_u8(self.flags) + self.exclusive@
    }

    /// Whether a payload of this length is accepted
    pub open spec fn spec_len_ok(p: Seq<u8>) -> bool {
        3 <= p.len() <= 258
    }

    /// The error returned for a rejected payload
    pub open spec fn spec_error(p: Seq<u8>) -> DeserializationError {
        length_error(69, p.len())
    }

    /// Whether this message holds the fields decoded from payload `p`
    pub open spec fn spec_decodes(&self, p: Seq<u8>) -> bool {
        &&& self.id == ser::dec_u16(p, 0)
        &&& self.flags == p[2]
        &&& self.exclusive@ == p.subrange(3, p.len() as int)
    }

    /// Whether this message can be encoded and read back
    pub open spec fn spec_valid(&self) -> bool {
        Self::spec_len_ok(self.spec_payload())
    }

    fn deserialize(buf: &[u8]) -> (r: Result<Self, DeserializationError>)
        ensures
            r is Ok <==> Self::spec_len_ok(buf@),
            r matches Ok(m) ==> m.spec_decodes(buf@),
            r matches Err(e) ==> e == Self::spec_error(buf@),
    {
        if let Err(e) = check_len(buf, 3, 258, 69) {
            return Err(e);
        }
        let id = read_u16(buf, 0);
        let flags = read_u8(buf, 2);
        let exclusive = read_remaining_bytes(buf, 3);
        Ok(Self { id, flags, exclusive })
    }

    fn serialize(&self, user_id: u8) -> (r: Vec<u8>)
        ensures
            r@ == ser::frame(69, user_id, self.spec_payload()),
    {
        let mut w: Vec<u8> = Vec::new();
        push_u16(&mut w, self.id);
        push_u8(&mut w, self.flags);
        push_bytes(&mut w, self.exclusive.as_slice());
        assert(w@ =~= self.spec_payload());
        frame_message(69, user_id, w.as_slice())
    }

    /// A valid message is read back from its own payload
    pub proof fn lemma_roundtrip(&self)
        requires
            self.spec_valid(),
        ensures
            Self::spec_len_ok(self.spec_payload()),
            self.spec_decodes(self.spec_payload()),
    {
        let p = self.spec_payload();
        assert(p.subrange(0, 2) =~= ser::enc_u16(self.id));
        ser::lemma_u16_at(p, 0, self.id);
        assert(p.subrange(2, 3) =~= ser::enc_u8(self.flags));
        ser::lemma_u8_at(p, 2, self.flags);
        assert(p.subrange(3, p.len() as int) =~= self.exclusive@);
    }

    /// Whether the payload is decoded without loss: booleans are 0 or 1 and
    /// strings are valid UTF-8
    pub open spec fn spec_canonical(p: Seq<u8>) -> bool {
        true
    }

    /// A payload that is decoded without loss is the encoding of what it decodes to
    pub proof fn lemma_reencode(&self, p: Seq<u8>)
        requires
            Self::spec_len_ok(p),
            self.spec_decodes(p),
            Self::spec_canonical(p),
        ensures
            self.spec_payload() == p,
    {
        ser::lemma_u16_reencode(p, 0);
        ser::lemma_u8_reencode(p, 2);
        assert(p =~= p.subrange(0, 2) + p.subrange(2, 3) + p.subrange(3, p.len() as int));
    }
}

#[derive(Debug, PartialEq)]
pub struct CanvasResizeMessage {
    pub top: i32,
    pub right: i32,
    pub bottom: i32,
    pub left: i32,
}

impl CanvasResizeMessage {
    /// The payload bytes of this message
    pub open spec fn spec_payload(&self) -> Seq<u8> {
        ser::enc_i32(self.top) + ser::enc_i32(self.right) + ser::enc_i32(self.bottom) + ser::enc_i32(self.left)
    }

    /// Whether a payload of this length is accepted
    pub open spec fn spec_len_ok(p: Seq<u8>) -> bool {
        16 <= p.len() <= 16
    }

    /// The error returned for a rejected payload
    pub open spec fn spec_error(p: Seq<u8>) -> DeserializationError {
        length_error(129, p.len())
    }

    /// Whether this message holds the fields decoded from payload `p`
    pub open spec fn spec_decodes(&self, p: Seq<u8>) -> bool {
        &&& self.top == ser::dec_i32(p, 0)
        &&& self.right == ser::dec_i32(p, 4)
        &&& self.bottom == ser::dec_i32(p, 8)
        &&& self.left == ser::dec_i32(p, 12)
    }

    /// Whether this message can be encoded and read back
    pub open spec fn spec_valid(&self) -> bool {
        Self::spec_len_ok(self.spec_payload())
    }

    fn deserialize(buf: &[u8]) -> (r: Result<Self, DeserializationError>)
        ensures
            r is Ok <==> Self::spec_len_ok(buf@),
            r matches Ok(m) ==> m.spec_decodes(buf@),
            r matches Err(e) ==> e == Self::spec_error(buf@),
    {
        if let Err(e) = check_len(buf, 16, 16, 129) {
            return Err(e);
        }
        let top = read_i32(buf, 0);
        let right = read_i32(buf, 4);
        let bottom = read_i32(buf, 8);
        let left = read_i32(buf, 12);
        Ok(Self { top, right, bottom, left })
    }

    fn serialize(&self, user_id: u8) -> (r: Vec<u8>)
        ensures
            r@ == ser::frame(129, user_id, self.spec_payload()),
    {
        let mut w: Vec<u8> = Vec::new();
        push_i32(&mut w, self.top);
        push_i32(&mut w, self.right);
        push_i32(&mut w, self.bottom);
        push_i32(&mut w, self.left);
        assert(w@ =~= self.spec_payload());
        frame_message(129, user_id, w.as_slice())
    }

    /// A valid message is read back from its own payload
    pub proof fn lemma_roundtrip(&self)
        requires
            self.spec_valid(),
        ensures
            Self::spec_len_ok(self.spec_payload()),
            self.spec_decodes(self.spec_payload()),
    {
        let p = self.spec_payload();
        assert(p.subrange(0, 4) =~= ser::enc_i32(self.top));
        ser::lemma_i32_at(p, 0, self.top);
        assert(p.subrange(4, 8) =~= ser::enc_i32(self.right));
        ser::lemma_i32_at(p, 4, self.right);
        assert(p.subrange(8, 12) =~= ser::enc_i32(self.bottom));
        ser::lemma_i32_at(p, 8, self.bottom);
        assert(p.subrange(12, 16) =~= ser::enc_i32(self.left));
        ser::lemma_i32_at(p, 12, self.left);
    }

    /// Whether the payload is decoded without loss: booleans are 0 or 1 and
    /// strings are valid UTF-8
    pub open spec fn spec_canonical(p: Seq<u8>) -> bool {
        true
    }

    /// A payload that is decoded without loss is the encoding of what it decodes to
    pub proof fn lemma_reencode(&self, p: Seq<u8>)
        requires
            Self::spec_len_ok(p),
            self.spec_decodes(p),
            Self::spec_canonical(p),
        ensures
            self.spec_payload() == p,
    {
        ser::lemma_i32_reencode(p, 0);
        ser::lemma_i32_reencode(p, 4);
        ser::lemma_i32_reencode(p, 8);
        ser::lemma_i32_reencode(p, 12);
        assert(p =~= p.subrange(0, 4) + p.subrange(4, 8) + p.subrange(8, 12) + p.subrange(12, 16));
    }
}

#[derive(Debug, PartialEq)]
pub struct LayerCreateMessage {
    pub id: u16,
    pub source: u16,
    pub fill: u32,
    pub flags: u8,
    pub name: String,
}

impl LayerCreateMessage {
    pub const FLAGS_COPY: u8 = 0x0;
    pub const FLAGS_INSERT: u8 = 0x1;

    /// The payload bytes of this message
    pub open spec fn spec_payload(&self) -> Seq<u8> {
        ser::enc_u16(self.id) + ser::enc_u16(self.source) + ser::enc_u32(self.fill) + ser::enc_u8(self.flags) + ser::enc_str(self.name@)
    }

    /// Whether a payload of this length is accepted
    pub open spec fn spec_len_ok(p: Seq<u8>) -> bool {
        9 <= p.len() <= 65535
    }

    /// The error returned for a rejected payload
    pub open spec fn spec_error(p: Seq<u8>) -> DeserializationError {
        length_error(130, p.len())
    }

    /// Whether this message holds the fields decoded from payload `p`
    pub open spec fn spec_decodes(&self, p: Seq<u8>) -> bool {
        &&& self.id == ser::dec_u16(p, 0)
        &&& self.source == ser::dec_u16(p, 2)
        &&& self.fill == ser::dec_u32(p, 4)
        &&& self.flags == p[8]
        &&& self.name@ == ser::dec_str(p.subrange(9, p.len() as int))
    }

    /// Whether this message can be encoded and read back
    pub open spec fn spec_valid(&self) -> bool {
        Self::spec_len_ok(self.spec_payload())
    }

    fn deserialize(buf: &[u8]) -> (r: Result<Self, DeserializationError>)
        ensures
            r is Ok <==> Self::spec_len_ok(buf@),
            r matches Ok(m) ==> m.spec_decodes(buf@),
            r matches Err(e) ==> e == Self::spec_error(buf@),
    {
        if let Err(e) = check_len(buf, 9, 65535, 130) {
            return Err(e);
        }
        let id = read_u16(buf, 0);
        let source = read_u16(buf, 2);
        let fill = read_u32(buf, 4);
        let flags = read_u8(buf, 8);
        let name = read_str(buf, 9, buf.len());
        Ok(Self { id, source, fill, flags, name })
    }

    fn serialize(&self, user_id: u8) -> (r: Vec<u8>)
        ensures
            r@ == ser::frame(130, user_id, self.spec_payload()),
    {
        let mut w: Vec<u8> = Vec::new();
        push_u16(&mut w, self.id);
        push_u16(&mut w, self.source);
        push_u32(&mut w, self.fill);
        push_u8(&mut w, self.flags);
        push_str(&mut w, self.name.as_str());
        assert(w@ =~= self.spec_payload());
        frame_message(130, user_id, w.as_slice())
    }

    /// A valid message is read back from its own payload
    pub proof fn lemma_roundtrip(&self)
        requires
            self.spec_valid(),
        ensures
            Self::spec_len_ok(self.spec_payload()),
            self.spec_decodes(self.spec_payload()),
    {
        let p = self.spec_payload();
        assert(p.subrange(0, 2) =~= ser::enc_u16(self.id));
        ser::lemma_u16_at(p, 0, self.id);
        assert(p.subrange(2, 4) =~= ser::enc_u16(self.source));
        ser::lemma_u16_at(p, 2, self.source);
        assert(p.subrange(4, 8) =~= ser::enc_u32(self.fill));
        ser::lemma_u32_at(p, 4, self.fill);
        assert(p.subrange(8, 9) =~= ser::enc_u8(self.flags));
        ser::lemma_u8_at(p, 8, self.flags);
        assert(p.subrange(9, p.len() as int) =~= ser::enc_str(self.name@));
        ser::lemma_str_roundtrip(self.name@);
    }

    /// Whether the payload is decoded without loss: booleans are 0 or 1 and
    /// strings are valid UTF-8
    pub open spec fn spec_canonical(p: Seq<u8>) -> bool {
        &&& vstd::utf8::valid_utf8(p.subrange(9, p.len() as int))
    }

    /// A payload that is decoded without loss is the encoding of what it decodes to
    pub proof fn lemma_reencode(&self, p: Seq<u8>)
        requires
            Self::spec_len_ok(p),
            self.spec_decodes(p),
            Self::spec_canonical(p),
        ensures
            self.spec_payload() == p,
    {
        ser::lemma_u16_reencode(p, 0);
        ser::lemma_u16_reencode(p, 2);
        ser::lemma_u32_reencode(p, 4);
        ser::lemma_u8_reencode(p, 8);
        ser::lemma_str_reencode(p.subrange(9, p.len() as int));
        assert(p =~= p.subrange(0, 2) + p.subrange(2, 4) + p.subrange(4, 8) + p.subrange(8, 9) + p.subrange(9, p.len() as int));
    }
}

#[derive(Debug, PartialEq)]
pub struct LayerAttributesMessage {
    pub id: u16,
    pub sublayer: u8,
    pub flags: u8,
    pub opacity: u8,
    pub blend: u8,
}

impl LayerAttributesMessage {
    pub const FLAGS_CENSOR: u8 = 0x0;
    pub const FLAGS_FIXED: u8 = 0x1;

    /// The payload bytes of this message
    pub open spec fn spec_payload(&self) -> Seq<u8> {
        ser::enc_u16(self.id) + ser::enc_u8(self.sublayer) + ser::enc_u8(self.flags) + ser::enc_u8(self.opacity) + ser::enc_u8(self.blend)
    }

    /// Whether a payload of this length is accepted
    pub open spec fn spec_len_ok(p: Seq<u8>) -> bool {
        6 <= p.len() <= 6
    }

    /// The error returned for a rejected payload
    pub open spec fn spec_error(p: Seq<u8>) -> DeserializationError {
        length_error(131, p.len())
    }

    /// Whether this message holds the fields decoded from payload `p`
    pub open spec fn spec_decodes(&self, p: Seq<u8>) -> bool {
        &&& self.id == ser::dec_u16(p, 0)
        &&& self.sublayer == p[2]
        &&& self.flags == p[3]
        &&& self.opacity == p[4]
        &&& self.blend == p[5]
    }

    /// Whether this message can be encoded and read back
    pub open spec fn spec_valid(&self) -> bool {
        Self::spec_len_ok(self.spec_payload())
    }

    fn deserialize(buf: &[u8]) -> (r: Result<Self, DeserializationError>)
        ensures
            r is Ok <==> Self::spec_len_ok(buf@),
            r matches Ok(m) ==> m.spec_decodes(buf@),
            r matches Err(e) ==> e == Self::spec_error(buf@),
    {
        if let Err(e) = check_len(buf, 6, 6, 131) {
            return Err(e);
        }
        let id = read_u16(buf, 0);
        let sublayer = read_u8(buf, 2);
        let flags = read_u8(buf, 3);
        let opacity = read_u8(buf, 4);
        let blend = read_u8(buf, 5);
        Ok(Self { id, sublayer, flags, opacity, blend })
    }

    fn serialize(&self, user_id: u8) -> (r: Vec<u8>)
        ensures
            r@ == ser::frame(131, user_id, self.spec_payload()),
    {
        let mut w: Vec<u8> = Vec::new();
        push_u16(&mut w, self.id);
        push_u8(&mut w, self.sublayer);
        push_u8(&mut w, self.flags);
        push_u8(&mut w, self.opacity);
        push_u8(&mut w, self.blend);
        assert(w@ =~= self.spec_payload());
        frame_message(131, user_id, w.as_slice())
    }

    /// A valid message is read back from its own payload
    pub proof fn lemma_roundtrip(&self)
        requires
            self.spec_valid(),
        ensures
            Self::spec_len_ok(self.spec_payload()),
            self.spec_decodes(self.spec_payload()),
    {
        let p = self.spec_payload();
        assert(p.subrange(0, 2) =~= ser::enc_u16(self.id));
        ser::lemma_u16_at(p, 0, self.id);
        assert(p.subrange(2, 3) =~= ser::enc_u8(self.sublayer));
        ser::lemma_u8_at(p, 2, self.sublayer);
        assert(p.subrange(3, 4) =~= ser::enc_u8(self.flags));
        ser::lemma_u8_at(p, 3, self.flags);
        assert(p.subrange(4, 5) =~= ser::enc_u8(self.opacity));
        ser::lemma_u8_at(p, 4, self.opacity);
        assert(p.subrange(5, 6) =~= ser::enc_u8(self.blend));
        ser::lemma_u8_at(p, 5, self.blend);
    }

    /// Whether the payload is decoded without loss: booleans are 0 or 1 and
    /// strings are valid UTF-8
    pub open spec fn spec_canonical(p: Seq<u8>) -> bool {
        true
    }

    /// A payload that is decoded without loss is the encoding of what it decodes to
    pub proof fn lemma_reencode(&self, p: Seq<u8>)
        requires
            Self::spec_len_ok(p),
            self.spec_decodes(p),
            Self::spec_canonical(p),
        ensures
            self.spec_payload() == p,
    {
        ser::lemma_u16_reencode(p, 0);
        ser::lemma_u8_reencode(p, 2);
        ser::lemma_u8_reencode(p, 3);
        ser::lemma_u8_reencode(p, 4);
        ser::lemma_u8_reencode(p, 5);
        assert(p =~= p.subrange(0, 2) + p.subrange(2, 3) + p.subrange(3, 4) + p.subrange(4, 5) + p.subrange(5, 6));
    }
}

#[derive(Debug, PartialEq)]
pub struct LayerRetitleMessage {
    pub id: u16,
    pub title: String,
}

impl LayerRetitleMessage {
    /// The payload bytes of this message
    pub open spec fn spec_payload(&self) -> Seq<u8> {
        ser::enc_u16(self.id) + ser::enc_str(self.title@)
    }

    /// Whether a payload of this length is accepted
    pub open spec fn spec_len_ok(p: Seq<u8>) -> bool {
        2 <= p.len() <= 65535
    }

    /// The error returned for a rejected payload
    pub open spec fn spec_error(p: Seq<u8>) -> DeserializationError {
        length_error(132, p.len())
    }

    /// Whether this message holds the fields decoded from payload `p`
    pub open spec fn spec_decodes(&self, p: Seq<u8>) -> bool {
        &&& self.id == ser::dec_u16(p, 0)
        &&& self.title@ == ser::dec_str(p.subrange(2, p.len() as int))
    }

    /// Whether this message can be encoded and read back
    pub open spec fn spec_valid(&self) -> bool {
        Self::spec_len_ok(self.spec_payload())
    }

    fn deserialize(buf: &[u8]) -> (r: Result<Self, DeserializationError>)
        ensures
            r is Ok <==> Self::spec_len_ok(buf@),
            r matches Ok(m) ==> m.spec_decodes(buf@),
            r matches Err(e) ==> e == Self::spec_error(buf@),
    {
        if let Err(e) = check_len(buf, 2, 65535, 132) {
            return Err(e);
        }
        let id = read_u16(buf, 0);
        let title = read_str(buf, 2, buf.len());
        Ok(Self { id, title })
    }

    fn serialize(&self, user_id: u8) -> (r: Vec<u8>)
        ensures
            r@ == ser::frame(132, user_id, self.spec_payload()),
    {
        let mut w: Vec<u8> = Vec::new();
        push_u16(&mut w, self.id);
        push_str(&mut w, self.title.as_str());
        assert(w@ =~= self.spec_payload());
        frame_message(132, user_id, w.as_slice())
    }

    /// A valid message is read back from its own payload
    pub proof fn lemma_roundtrip(&self)
        requires
            self.spec_valid(),
        ensures
            Self::spec_len_ok(self.spec_payload()),
            self.spec_decodes(self.spec_payload()),
    {
        let p = self.spec_payload();
        assert(p.subrange(0, 2) =~= ser::enc_u16(self.id));
        ser::lemma_u16_at(p, 0, self.id);
        assert(p.subrange(2, p.len() as int) =~= ser::enc_str(self.title@));
        ser::lemma_str_roundtrip(self.title@);
    }

    /// Whether the payload is decoded without loss: booleans are 0 or 1 and
    /// strings are valid UTF-8
    pub open spec fn spec_canonical(p: Seq<u8>) -> bool {
        &&& vstd::utf8::valid_utf8(p.subrange(2, p.len() as int))
    }

    /// A payload that is decoded without loss is the encoding of what it decodes to
    pub proof fn lemma_reencode(&self, p: Seq<u8>)
        requires
            Self::spec_len_ok(p),
            self.spec_decodes(p),
            Self::spec_canonical(p),
        ensures
            self.spec_payload() == p,
    {
        ser::lemma_u16_reencode(p, 0);
        ser::lemma_str_reencode(p.subrange(2, p.len() as int));
        assert(p =~= p.subrange(0, 2) + p.subrange(2, p.len() as int));
    }
}

#[derive(Debug, PartialEq)]
pub struct LayerDeleteMessage {
    pub id: u16,
    pub merge: bool,
}

impl LayerDeleteMessage {
    /// The payload bytes of this message
    pub open spec fn spec_payload(&self) -> Seq<u8> {
        ser::enc_u16(self.id) + ser::enc_bool(self.merge)
    }

    /// Whether a payload of this length is accepted
    pub open spec fn spec_len_ok(p: Seq<u8>) -> bool {
        3 <= p.len() <= 3
    }

    /// The error returned for a rejected payload
    pub open spec fn spec_error(p: Seq<u8>) -> DeserializationError {
        length_error(134, p.len())
    }

    /// Whether this message holds the fields decoded from payload `p`
    pub open spec fn spec_decodes(&self, p: Seq<u8>) -> bool {
        &&& self.id == ser::dec_u16(p, 0)
        &&& self.merge == ser::dec_bool(p, 2)
    }

    /// Whether this message can be encoded and read back
    pub open spec fn spec_valid(&self) -> bool {
        Self::spec_len_ok(self.spec_payload())
    }

    fn deserialize(buf: &[u8]) -> (r: Result<Self, DeserializationError>)
        ensures
            r is Ok <==> Self::spec_len_ok(buf@),
            r matches Ok(m) ==> m.spec_decodes(buf@),
            r matches Err(e) ==> e == Self::spec_error(buf@),
    {
        if let Err(e) = check_len(buf, 3, 3, 134) {
            return Err(e);
        }
        let id = read_u16(buf, 0);
        let merge = read_bool(buf, 2);
        Ok(Self { id, merge })
    }

    fn serialize(&self, user_id: u8) -> (r: Vec<u8>)
        ensures
            r@ == ser::frame(134, user_id, self.spec_payload()),
    {
        let mut w: Vec<u8> = Vec::new();
        push_u16(&mut w, self.id);
        push_bool(&mut w, self.merge);
        assert(w@ =~= self.spec_payload());
        frame_message(134, user_id, w.as_slice())
    }

    /// A valid message is read back from its own payload
    pub proof fn lemma_roundtrip(&self)
        requires
            self.spec_valid(),
        ensures
            Self::spec_len_ok(self.spec_payload()),
            self.spec_decodes(self.spec_payload()),
    {
        let p = self.spec_payload();
        assert(p.subrange(0, 2) =~= ser::enc_u16(self.id));
        ser::lemma_u16_at(p, 0, self.id);
        assert(p.subrange(2, 3) =~= ser::enc_bool(self.merge));
        ser::lemma_bool_at(p, 2, self.merge);
    }

    /// Whether the payload is decoded without loss: booleans are 0 or 1 and
    /// strings are valid UTF-8
    pub open spec fn spec_canonical(p: Seq<u8>) -> bool {
        &&& p[2] <= 1
    }

    /// A payload that is decoded without loss is the encoding of what it decodes to
    pub proof fn lemma_reencode(&self, p: Seq<u8>)
        requires
            Self::spec_len_ok(p),
            self.spec_decodes(p),
            Self::spec_canonical(p),
        ensures
            self.spec_payload() == p,
    {
        ser::lemma_u16_reencode(p, 0);
        ser::lemma_bool_reencode(p, 2);
        assert(p =~= p.subrange(0, 2) + p.subrange(2, 3));
    }
}

#[derive(Debug, PartialEq)]
pub struct LayerVisibilityMessage {
    pub id: u16,
    pub visible: bool,
}

impl LayerVisibilityMessage {
    /// The payload bytes of this message
    pub open spec fn spec_payload(&self) -> Seq<u8> {
        ser::enc_u16(self.id) + ser::enc_bool(self.visible)
    }

    /// Whether a payload of this length is accepted
    pub open spec fn spec_len_ok(p: Seq<u8>) -> bool {
        3 <= p.len() <= 3
    }

    /// The error returned for a rejected payload
    pub open spec fn spec_error(p: Seq<u8>) -> DeserializationError {
        length_error(135, p.len())
    }

    /// Whether this message holds the fields decoded from payload `p`
    pub open spec fn spec_decodes(&self, p: Seq<u8>) -> bool {
        &&& self.id == ser::dec_u16(p, 0)
        &&& self.visible == ser::dec_bool(p, 2)
    }

    /// Whether this message can be encoded and read back
    pub open spec fn spec_valid(&self) -> bool {
        Self::spec_len_ok(self.spec_payload())
    }

    fn deserialize(buf: &[u8]) -> (r: Result<Self, DeserializationError>)
        ensures
            r is Ok <==> Self::spec_len_ok(buf@),
            r matches Ok(m) ==> m.spec_decodes(buf@),
            r matches Err(e) ==> e == Self::spec_error(buf@),
    {
        if let Err(e) = check_len(buf, 3, 3, 135) {
            return Err(e);
        }
        let id = read_u16(buf, 0);
        let visible = read_bool(buf, 2);
        Ok(Self { id, visible })
    }

    fn serialize(&self, user_id: u8) -> (r: Vec<u8>)
        ensures
            r@ == ser::frame(135, user_id, self.spec_payload()),
    {
        let mut w: Vec<u8> = Vec::new();
        push_u16(&mut w, self.id);
        push_bool(&mut w, self.visible);
        assert(w@ =~= self.spec_payload());
        frame_message(135, user_id, w.as_slice())
    }

    /// A valid message is read back from its own payload
    pub proof fn lemma_roundtrip(&self)
        requires
            self.spec_valid(),
        ensures
            Self::spec_len_ok(self.spec_payload()),
            self.spec_decodes(self.spec_payload()),
    {
        let p = self.spec_payload();
        assert(p.subrange(0, 2) =~= ser::enc_u16(self.id));
        ser::lemma_u16_at(p, 0, self.id);
        assert(p.subrange(2, 3) =~= ser::enc_bool(self.visible));
        ser::lemma_bool_at(p, 2, self.visible);
    }

    /// Whether the payload is decoded without loss: booleans are 0 or 1 and
    /// strings are valid UTF-8
    pub open spec fn spec_canonical(p: Seq<u8>) -> bool {
        &&& p[2] <= 1
    }

    /// A payload that is decoded without loss is the encoding of what it decodes to
    pub proof fn lemma_reencode(&self, p: Seq<u8>)
        requires
            Self::spec_len_ok(p),
            self.spec_decodes(p),
            Self::spec_canonical(p),
        ensures
            self.spec_payload() == p,
    {
        ser::lemma_u16_reencode(p, 0);
        ser::lemma_bool_reencode(p, 2);
        assert(p =~= p.subrange(0, 2) + p.subrange(2, 3));
    }
}

#[derive(Debug, PartialEq)]
pub struct PutImageMessage {
    pub layer: u16,
    pub mode: u8,
    pub x: u32,
    pub y: u32,
    pub w: u32,
    pub h: u32,
    pub image: Vec<u8>,
}

impl PutImageMessage {
    /// The payload bytes of this message
    pub open spec fn spec_payload(&self) -> Seq<u8> {
        ser::enc_u16(self.layer) + ser::enc_u8(self.mode) + ser::enc_u32(self.x) + ser::enc_u32(self.y) + ser::enc_u32(self.w) + ser::enc_u32(self.h) + self.image@
    }

    /// Whether a payload of this length is accepted
    pub open spec fn spec_len_ok(p: Seq<u8>) -> bool {
        19 <= p.len() <= 65535
    }

    /// The error returned for a rejected payload
    pub open spec fn spec_error(p: Seq<u8>) -> DeserializationError {
        length_error(136, p.len())
    }

    /// Whether this message holds the fields decoded from payload `p`
    pub open spec fn spec_decodes(&self, p: Seq<u8>) -> bool {
        &&& self.layer == ser::dec_u16(p, 0)
        &&& self.mode == p[2]
        &&& self.x == ser::dec_u32(p, 3)
        &&& self.y == ser::dec_u32(p, 7)
        &&& self.w == ser::dec_u32(p, 11)
        &&& self.h == ser::dec_u32(p, 15)
        &&& self.image@ == p.subrange(19, p.len() as int)
    }

    /// Whether this message can be encoded and read back
    pub open spec fn spec_valid(&self) -> bool {
        Self::spec_len_ok(self.spec_payload())
    }

    fn deserialize(buf: &[u8]) -> (r: Result<Self, DeserializationError>)
        ensures
            r is Ok <==> Self::spec_len_ok(buf@),
            r matches Ok(m) ==> m.spec_decodes(buf@),
            r matches Err(e) ==> e == Self::spec_error(buf@),
    {
        if let Err(e) = check_len(buf, 19, 65535, 136) {
            return Err(e);
        }
        let layer = read_u16(buf, 0);
        let mode = read_u8(buf, 2);
        let x = read_u32(buf, 3);
        let y = read_u32(buf, 7);
        let w = read_u32(buf, 11);
        let h = read_u32(buf, 15);
        let image = read_remaining_bytes(buf, 19);
        Ok(Self { layer, mode, x, y, w, h, image })
    }

    fn serialize(&self, user_id: u8) -> (r: Vec<u8>)
        ensures
            r@ == ser::frame(136, user_id, self.spec_payload()),
    {
        let mut w: Vec<u8> = Vec::new();
        push_u16(&mut w, self.layer);
        push_u8(&mut w, self.mode);
        push_u32(&mut w, self.x);
        push_u32(&mut w, self.y);
        push_u32(&mut w, self.w);
        push_u32(&mut w, self.h);
        push_bytes(&mut w, self.image.as_slice());
        assert(w@ =~= self.spec_payload());
        frame_message(136, user_id, w.as_slice())
    }

    /// A valid message is read back from its own payload
    pub proof fn lemma_roundtrip(&self)
        requires
            self.spec_valid(),
        ensures
            Self::spec_len_ok(self.spec_payload()),
            self.spec_decodes(self.spec_payload()),
    {
        let p = self.spec_payload();
        assert(p.subrange(0, 2) =~= ser::enc_u16(self.layer));
        ser::lemma_u16_at(p, 0, self.layer);
        assert(p.subrange(2, 3) =~= ser::enc_u8(self.mode));
        ser::lemma_u8_at(p, 2, self.mode);
        assert(p.subrange(3, 7) =~= ser::enc_u32(self.x));
        ser::lemma_u32_at(p, 3, self.x);
        assert(p.subrange(7, 11) =~= ser::enc_u32(self.y));
        ser::lemma_u32_at(p, 7, self.y);
        assert(p.subrange(11, 15) =~= ser::enc_u32(self.w));
        ser::lemma_u32_at(p, 11, self.w);
        assert(p.subrange(15, 19) =~= ser::enc_u32(self.h));
        ser::lemma_u32_at(p, 15, self.h);
        assert(p.subrange(19, p.len() as int) =~= self.image@);
    }

    /// Whether the payload is decoded without loss: booleans are 0 or 1 and
    /// strings are valid UTF-8
    pub open spec fn spec_canonical(p: Seq<u8>) -> bool {
        true
    }

    /// A payload that is decoded without loss is the encoding of what it decodes to
    pub proof fn lemma_reencode(&self, p: Seq<u8>)
        requires
            Self::spec_len_ok(p),
            self.spec_decodes(p),
            Self::spec_canonical(p),
        ensures
            self.spec_payload() == p,
    {
        ser::lemma_u16_reencode(p, 0);
        ser::lemma_u8_reencode(p, 2);
        ser::lemma_u32_reencode(p, 3);
        ser::lemma_u32_reencode(p, 7);
        ser::lemma_u32_reencode(p, 11);
        ser::lemma_u32_reencode(p, 15);
        assert(p =~= p.subrange(0, 2) + p.subrange(2, 3) + p.subrange(3, 7) + p.subrange(7, 11) + p.subrange(11, 15) + p.subrange(15, 19) + p.subrange(19, p.len() as int));
    }
}

#[derive(Debug, PartialEq)]
pub struct FillRectMessage {
    pub layer: u16,
    pub mode: u8,
    pub x: u32,
    pub y: u32,
    pub w: u32,
    pub h: u32,
    pub color: u32,
}

impl FillRectMessage {
    /// The payload bytes of this message
    pub open spec fn spec_payload(&self) -> Seq<u8> {
        ser::enc_u16(self.layer) + ser::enc_u8(self.mode) + ser::enc_u32(self.x) + ser::enc_u32(self.y) + ser::enc_u32(self.w) + ser::enc_u32(self.h) + ser::enc_u32(self.color)
    }

    /// Whether a payload of this length is accepted
    pub open spec fn spec_len_ok(p: Seq<u8>) -> bool {
        23 <= p.len() <= 23
    }

    /// The error returned for a rejected payload
    pub open spec fn spec_error(p: Seq<u8>) -> DeserializationError {
        length_error(137, p.len())
    }

    /// Whether this message holds the fields decoded from payload `p`
    pub open spec fn spec_decodes(&self, p: Seq<u8>) -> bool {
        &&& self.layer == ser::dec_u16(p, 0)
        &&& self.mode == p[2]
        &&& self.x == ser::dec_u32(p, 3)
        &&& self.y == ser::dec_u32(p, 7)
        &&& self.w == ser::dec_u32(p, 11)
        &&& self.h == ser::dec_u32(p, 15)
        &&& self.color == ser::dec_u32(p, 19)
    }

    /// Whether this message can be encoded and read back
    pub open spec fn spec_valid(&self) -> bool {
        Self::spec_len_ok(self.spec_payload())
    }

    fn deserialize(buf: &[u8]) -> (r: Result<Self, DeserializationError>)
        ensures
            r is Ok <==> Self::spec_len_ok(buf@),
            r matches Ok(m) ==> m.spec_decodes(buf@),
            r matches Err(e) ==> e == Self::spec_error(buf@),
    {
        if let Err(e) = check_len(buf, 23, 23, 137) {
            return Err(e);
        }
        let layer = read_u16(buf, 0);
        let mode = read_u8(buf, 2);
        let x = read_u32(buf, 3);
        let y = read_u32(buf, 7);
        let w = read_u32(buf, 11);
        let h = read_u32(buf, 15);
        let color = read_u32(buf, 19);
        Ok(Self { layer, mode, x, y, w, h, color })
    }

    fn serialize(&self, user_id: u8) -> (r: Vec<u8>)
        ensures
            r@ == ser::frame(137, user_id, self.spec_payload()),
    {
        let mut w: Vec<u8> = Vec::new();
        push_u16(&mut w, self.layer);
        push_u8(&mut w, self.mode);
        push_u32(&mut w, self.x);
        push_u32(&mut w, self.y);
        push_u32(&mut w, self.w);
        push_u32(&mut w, self.h);
        push_u32(&mut w, self.color);
        assert(w@ =~= self.spec_payload());
        frame_message(137, user_id, w.as_slice())
    }

    /// A valid message is read back from its own payload
    pub proof fn lemma_roundtrip(&self)
        requires
            self.spec_valid(),
        ensures
            Self::spec_len_ok(self.spec_payload()),
            self.spec_decodes(self.spec_payload()),
    {
        let p = self.spec_payload();
        assert(p.subrange(0, 2) =~= ser::enc_u16(self.layer));
        ser::lemma_u16_at(p, 0, self.layer);
        assert(p.subrange(2, 3) =~= ser::enc_u8(self.mode));
        ser::lemma_u8_at(p, 2, self.mode);
        assert(p.subrange(3, 7) =~= ser::enc_u32(self.x));
        ser::lemma_u32_at(p, 3, self.x);
        assert(p.subrange(7, 11) =~= ser::enc_u32(self.y));
        ser::lemma_u32_at(p, 7, self.y);
        assert(p.subrange(11, 15) =~= ser::enc_u32(self.w));
        ser::lemma_u32_at(p, 11, self.w);
        assert(p.subrange(15, 19) =~= ser::enc_u32(self.h));
        ser::lemma_u32_at(p, 15, self.h);
        assert(p.subrange(19, 23) =~= ser::enc_u32(self.color));
        ser::lemma_u32_at(p, 19, self.color);
    }

    /// Whether the payload is decoded without loss: booleans are 0 or 1 and
    /// strings are valid UTF-8
    pub open spec fn spec_canonical(p: Seq<u8>) -> bool {
        true
    }

    /// A payload that is decoded without loss is the encoding of what it decodes to
    pub proof fn lemma_reencode(&self, p: Seq<u8>)
        requires
            Self::spec_len_ok(p),
            self.spec_decodes(p),
            Self::spec_canonical(p),
        ensures
            self.spec_payload() == p,
    {
        ser::lemma_u16_reencode(p, 0);
        ser::lemma_u8_reencode(p, 2);
        ser::lemma_u32_reencode(p, 3);
        ser::lemma_u32_reencode(p, 7);
        ser::lemma_u32_reencode(p, 11);
        ser::lemma_u32_reencode(p, 15);
        ser::lemma_u32_reencode(p, 19);
        assert(p =~= p.subrange(0, 2) + p.subrange(2, 3) + p.subrange(3, 7) + p.subrange(7, 11) + p.subrange(11, 15) + p.subrange(15, 19) + p.subrange(19, 23));
    }
}

#[derive(Debug, PartialEq)]
pub struct AnnotationCreateMessage {
    pub id: u16,
    pub x: i32,
    pub y: i32,
    pub w: u16,
    pub h: u16,
}

impl AnnotationCreateMessage {
    /// The payload bytes of this message
    pub open spec fn spec_payload(&self) -> Seq<u8> {
        ser::enc_u16(self.id) + ser::enc_i32(self.x) + ser::enc_i32(self.y) + ser::enc_u16(self.w) + ser::enc_u16(self.h)
    }

    /// Whether a payload of this length is accepted
    pub open spec fn spec_len_ok(p: Seq<u8>) -> bool {
        14 <= p.len() <= 14
    }

    /// The error returned for a rejected payload
    pub open spec fn spec_error(p: Seq<u8>) -> DeserializationError {
        length_error(141, p.len())
    }

    /// Whether this message holds the fields decoded from payload `p`
    pub open spec fn spec_decodes(&self, p: Seq<u8>) -> bool {
        &&& self.id == ser::dec_u16(p, 0)
        &&& self.x == ser::dec_i32(p, 2)
        &&& self.y == ser::dec_i32(p, 6)
        &&& self.w == ser::dec_u16(p, 10)
        &&& self.h == ser::dec_u16(p, 12)
    }

    /// Whether this message can be encoded and read back
    pub open spec fn spec_valid(&self) -> bool {
        Self::spec_len_ok(self.spec_payload())
    }

    fn deserialize(buf: &[u8]) -> (r: Result<Self, DeserializationError>)
        ensures
            r is Ok <==> Self::spec_len_ok(buf@),
            r matches Ok(m) ==> m.spec_decodes(buf@),
            r matches Err(e) ==> e == Self::spec_error(buf@),
    {
        if let Err(e) = check_len(buf, 14, 14, 141) {
            return Err(e);
        }
        let id = read_u16(buf, 0);
        let x = read_i32(buf, 2);
        let y = read_i32(buf, 6);
        let w = read_u16(buf, 10);
        let h = read_u16(buf, 12);
        Ok(Self { id, x, y, w, h })
    }

    fn serialize(&self, user_id: u8) -> (r: Vec<u8>)
        ensures
            r@ == ser::frame(141, user_id, self.spec_payload()),
    {
        let mut w: Vec<u8> = Vec::new();
        push_u16(&mut w, self.id);
        push_i32(&mut w, self.x);
        push_i32(&mut w, self.y);
        push_u16(&mut w, self.w);
        push_u16(&mut w, self.h);
        assert(w@ =~= self.spec_payload());
        frame_message(141, user_id, w.as_slice())
    }

    /// A valid message is read back from its own payload
    pub proof fn lemma_roundtrip(&self)
        requires
            self.spec_valid(),
        ensures
            Self::spec_len_ok(self.spec_payload()),
            self.spec_decodes(self.spec_payload()),
    {
        let p = self.spec_payload();
        assert(p.subrange(0, 2) =~= ser::enc_u16(self.id));
        ser::lemma_u16_at(p, 0, self.id);
        assert(p.subrange(2, 6) =~= ser::enc_i32(self.x));
        ser::lemma_i32_at(p, 2, self.x);
        assert(p.subrange(6, 10) =~= ser::enc_i32(self.y));
        ser::lemma_i32_at(p, 6, self.y);
        assert(p.subrange(10, 12) =~= ser::enc_u16(self.w));
        ser::lemma_u16_at(p, 10, self.w);
        assert(p.subrange(12, 14) =~= ser::enc_u16(self.h));
        ser::lemma_u16_at(p, 12, self.h);
    }

    /// Whether the payload is decoded without loss: booleans are 0 or 1 and
    /// strings are valid UTF-8
    pub open spec fn spec_canonical(p: Seq<u8>) -> bool {
        true
    }

    /// A payload that is decoded without loss is the encoding of what it decodes to
    pub proof fn lemma_reencode(&self, p: Seq<u8>)
        requires
            Self::spec_len_ok(p),
            self.spec_decodes(p),
            Self::spec_canonical(p),
        ensures
            self.spec_payload() == p,
    {
        ser::lemma_u16_reencode(p, 0);
        ser::lemma_i32_reencode(p, 2);
        ser::lemma_i32_reencode(p, 6);
        ser::lemma_u16_reencode(p, 10);
        ser::lemma_u16_reencode(p, 12);
        assert(p =~= p.subrange(0, 2) + p.subrange(2, 6) + p.subrange(6, 10) + p.subrange(10, 12) + p.subrange(12, 14));
    }
}

#[derive(Debug, PartialEq)]
pub struct AnnotationReshapeMessage {
    pub id: u16,
    pub x: i32,
    pub y: i32,
    pub w: u16,
    pub h: u16,
}

impl AnnotationReshapeMessage {
    /// The payload bytes of this message
    pub open spec fn spec_payload(&self) -> Seq<u8> {
        ser::enc_u16(self.id) + ser::enc_i32(self.x) + ser::enc_i32(self.y) + ser::enc_u16(self.w) + ser::enc_u16(self.h)
    }

    /// Whether a payload of this length is accepted
    pub open spec fn spec_len_ok(p: Seq<u8>) -> bool {
        14 <= p.len() <= 14
    }

    /// The error returned for a rejected payload
    pub open spec fn spec_error(p: Seq<u8>) -> DeserializationError {
        length_error(142, p.len())
    }

    /// Whether this message holds the fields decoded from payload `p`
    pub open spec fn spec_decodes(&self, p: Seq<u8>) -> bool {
        &&& self.id == ser::dec_u16(p, 0)
        &&& self.x == ser::dec_i32(p, 2)
        &&& self.y == ser::dec_i32(p, 6)
        &&& self.w == ser::dec_u16(p, 10)
        &&& self.h == ser::dec_u16(p, 12)
    }

    /// Whether this message can be encoded and read back
    pub open spec fn spec_valid(&self) -> bool {
        Self::spec_len_ok(self.spec_payload())
    }

    fn deserialize(buf: &[u8]) -> (r: Result<Self, DeserializationError>)
        ensures
            r is Ok <==> Self::spec_len_ok(buf@),
            r matches Ok(m) ==> m.spec_decodes(buf@),
            r matches Err(e) ==> e == Self::spec_error(buf@),
    {
        if let Err(e) = check_len(buf, 14, 14, 142) {
            return Err(e);
        }
        let id = read_u16(buf, 0);
        let x = read_i32(buf, 2);
        let y = read_i32(buf, 6);
        let w = read_u16(buf, 10);
        let h = read_u16(buf, 12);
        Ok(Self { id, x, y, w, h })
    }

    fn serialize(&self, user_id: u8) -> (r: Vec<u8>)
        ensures
            r@ == ser::frame(142, user_id, self.spec_payload()),
    {
        let mut w: Vec<u8> = Vec::new();
        push_u16(&mut w, self.id);
        push_i32(&mut w, self.x);
        push_i32(&mut w, self.y);
        push_u16(&mut w, self.w);
        push_u16(&mut w, self.h);
        assert(w@ =~= self.spec_payload());
        frame_message(142, user_id, w.as_slice())
    }

    /// A valid message is read back from its own payload
    pub proof fn lemma_roundtrip(&self)
        requires
            self.spec_valid(),
        ensures
            Self::spec_len_ok(self.spec_payload()),
            self.spec_decodes(self.spec_payload()),
    {
        let p = self.spec_payload();
        assert(p.subrange(0, 2) =~= ser::enc_u16(self.id));
        ser::lemma_u16_at(p, 0, self.id);
        assert(p.subrange(2, 6) =~= ser::enc_i32(self.x));
        ser::lemma_i32_at(p, 2, self.x);
        assert(p.subrange(6, 10) =~= ser::enc_i32(self.y));
        ser::lemma_i32_at(p, 6, self.y);
        assert(p.subrange(10, 12) =~= ser::enc_u16(self.w));
        ser::lemma_u16_at(p, 10, self.w);
        assert(p.subrange(12, 14) =~= ser::enc_u16(self.h));
        ser::lemma_u16_at(p, 12, self.h);
    }

    /// Whether the payload is decoded without loss: booleans are 0 or 1 and
    /// strings are valid UTF-8
    pub open spec fn spec_canonical(p: Seq<u8>) -> bool {
        true
    }

    /// A payload that is decoded without loss is the encoding of what it decodes to
    pub proof fn lemma_reencode(&self, p: Seq<u8>)
        requires
            Self::spec_len_ok(p),
            self.spec_decodes(p),
            Self::spec_canonical(p),
        ensures
            self.spec_payload() == p,
    {
        ser::lemma_u16_reencode(p, 0);
        ser::lemma_i32_reencode(p, 2);
        ser::lemma_i32_reencode(p, 6);
        ser::lemma_u16_reencode(p, 10);
        ser::lemma_u16_reencode(p, 12);
        assert(p =~= p.subrange(0, 2) + p.subrange(2, 6) + p.subrange(6, 10) + p.subrange(10, 12) + p.subrange(12, 14));
    }
}

#[derive(Debug, PartialEq)]
pub struct AnnotationEditMessage {
    pub id: u16,
    pub bg: u32,
    pub flags: u8,
    pub border: u8,
    pub text: String,
}

impl AnnotationEditMessage {
    /// The payload bytes of this message
    pub open spec fn spec_payload(&self) -> Seq<u8> {
        ser::enc_u16(self.id) + ser::enc_u32(self.bg) + ser::enc_u8(self.flags) + ser::enc_u8(self.border) + ser::enc_str(self.text@)
    }

    /// Whether a payload of this length is accepted
    pub open spec fn spec_len_ok(p: Seq<u8>) -> bool {
        8 <= p.len() <= 65535
    }

    /// The error returned for a rejected payload
    pub open spec fn spec_error(p: Seq<u8>) -> DeserializationError {
        length_error(143, p.len())
    }

    /// Whether this message holds the fields decoded from payload `p`
    pub open spec fn spec_decodes(&self, p: Seq<u8>) -> bool {
        &&& self.id == ser::dec_u16(p, 0)
        &&& self.bg == ser::dec_u32(p, 2)
        &&& self.flags == p[6]
        &&& self.border == p[7]
        &&& self.text@ == ser::dec_str(p.subrange(8, p.len() as int))
    }

    /// Whether this message can be encoded and read back
    pub open spec fn spec_valid(&self) -> bool {
        Self::spec_len_ok(self.spec_payload())
    }

    fn deserialize(buf: &[u8]) -> (r: Result<Self, DeserializationError>)
        ensures
            r is Ok <==> Self::spec_len_ok(buf@),
            r matches Ok(m) ==> m.spec_decodes(buf@),
            r matches Err(e) ==> e == Self::spec_error(buf@),
    {
        if let Err(e) = check_len(buf, 8, 65535, 143) {
            return Err(e);
        }
        let id = read_u16(buf, 0);
        let bg = read_u32(buf, 2);
        let flags = read_u8(buf, 6);
        let border = read_u8(buf, 7);
        let text = read_str(buf, 8, buf.len());
        Ok(Self { id, bg, flags, border, text })
    }

    fn serialize(&self, user_id: u8) -> (r: Vec<u8>)
        ensures
            r@ == ser::frame(143, user_id, self.spec_payload()),
    {
        let mut w: Vec<u8> = Vec::new();
        push_u16(&mut w, self.id);
        push_u32(&mut w, self.bg);
        push_u8(&mut w, self.flags);
        push_u8(&mut w, self.border);
        push_str(&mut w, self.text.as_str());
        assert(w@ =~= self.spec_payload());
        frame_message(143, user_id, w.as_slice())
    }

    /// A valid message is read back from its own payload
    pub proof fn lemma_roundtrip(&self)
        requires
            self.spec_valid(),
        ensures
            Self::spec_len_ok(self.spec_payload()),
            self.spec_decodes(self.spec_payload()),
    {
        let p = self.spec_payload();
        assert(p.subrange(0, 2) =~= ser::enc_u16(self.id));
        ser::lemma_u16_at(p, 0, self.id);
        assert(p.subrange(2, 6) =~= ser::enc_u32(self.bg));
        ser::lemma_u32_at(p, 2, self.bg);
        assert(p.subrange(6, 7) =~= ser::enc_u8(self.flags));
        ser::lemma_u8_at(p, 6, self.flags);
        assert(p.subrange(7, 8) =~= ser::enc_u8(self.border));
        ser::lemma_u8_at(p, 7, self.border);
        assert(p.subrange(8, p.len() as int) =~= ser::enc_str(self.text@));
        ser::lemma_str_roundtrip(self.text@);
    }

    /// Whether the payload is decoded without loss: booleans are 0 or 1 and
    /// strings are valid UTF-8
    pub open spec fn spec_canonical(p: Seq<u8>) -> bool {
        &&& vstd::utf8::valid_utf8(p.subrange(8, p.len() as int))
    }

    /// A payload that is decoded without loss is the encoding of what it decodes to
    pub proof fn lemma_reencode(&self, p: Seq<u8>)
        requires
            Self::spec_len_ok(p),
            self.spec_decodes(p),
            Self::spec_canonical(p),
        ensures
            self.spec_payload() == p,
    {
        ser::lemma_u16_reencode(p, 0);
        ser::lemma_u32_reencode(p, 2);
        ser::lemma_u8_reencode(p, 6);
        ser::lemma_u8_reencode(p, 7);
        ser::lemma_str_reencode(p.subrange(8, p.len() as int));
        assert(p =~= p.subrange(0, 2) + p.subrange(2, 6) + p.subrange(6, 7) + p.subrange(7, 8) + p.subrange(8, p.len() as int));
    }
}

#[derive(Debug, PartialEq)]
pub struct MoveRegionMessage {
    pub layer: u16,
    pub bx: i32,
    pub by: i32,
    pub bw: i32,
    pub bh: i32,
    pub x1: i32,
    pub y1: i32,
    pub x2: i32,
    pub y2: i32,
    pub x3: i32,
    pub y3: i32,
    pub x4: i32,
    pub y4: i32,
    pub mask: Vec<u8>,
}

impl MoveRegionMessage {
    /// The payload bytes of this message
    pub open spec fn spec_payload(&self) -> Seq<u8> {
        ser::enc_u16(self.layer) + ser::enc_i32(self.bx) + ser::enc_i32(self.by) + ser::enc_i32(self.bw) + ser::enc_i32(self.bh) + ser::enc_i32(self.x1) + ser::enc_i32(self.y1) + ser::enc_i32(self.x2) + ser::enc_i32(self.y2) + ser::enc_i32(self.x3) + ser::enc_i32(self.y3) + ser::enc_i32(self.x4) + ser::enc_i32(self.y4) + self.mask@
    }

    /// Whether a payload of this length is accepted
    pub open spec fn spec_len_ok(p: Seq<u8>) -> bool {
        50 <= p.len() <= 65535
    }

    /// The error returned for a rejected payload
    pub open spec fn spec_error(p: Seq<u8>) -> DeserializationError {
        length_error(145, p.len())
    }

    /// Whether this message holds the fields decoded from payload `p`
    pub open spec fn spec_decodes(&self, p: Seq<u8>) -> bool {
        &&& self.layer == ser::dec_u16(p, 0)
        &&& self.bx == ser::dec_i32(p, 2)
        &&& self.by == ser::dec_i32(p, 6)
        &&& self.bw == ser::dec_i32(p, 10)
        &&& self.bh == ser::dec_i32(p, 14)
        &&& self.x1 == ser::dec_i32(p, 18)
        &&& self.y1 == ser::dec_i32(p, 22)
        &&& self.x2 == ser::dec_i32(p, 26)
        &&& self.y2 == ser::dec_i32(p, 30)
        &&& self.x3 == ser::dec_i32(p, 34)
        &&& self.y3 == ser::dec_i32(p, 38)
        &&& self.x4 == ser::dec_i32(p, 42)
        &&& self.y4 == ser::dec_i32(p, 46)
        &&& self.mask@ == p.subrange(50, p.len() as int)
    }

    /// Whether this message can be encoded and read back
    pub open spec fn spec_valid(&self) -> bool {
        Self::spec_len_ok(self.spec_payload())
    }

    fn deserialize(buf: &[u8]) -> (r: Result<Self, DeserializationError>)
        ensures
            r is Ok <==> Self::spec_len_ok(buf@),
            r matches Ok(m) ==> m.spec_decodes(buf@),
            r matches Err(e) ==> e == Self::spec_error(buf@),
    {
        if let Err(e) = check_len(buf, 50, 65535, 145) {
            return Err(e);
        }
        let layer = read_u16(buf, 0);
        let bx = read_i32(buf, 2);
        let by = read_i32(buf, 6);
        let bw = read_i32(buf, 10);
        let bh = read_i32(buf, 14);
        let x1 = read_i32(buf, 18);
        let y1 = read_i32(buf, 22);
        let x2 = read_i32(buf, 26);
        let y2 = read_i32(buf, 30);
        let x3 = read_i32(buf, 34);
        let y3 = read_i32(buf, 38);
        let x4 = read_i32(buf, 42);
        let y4 = read_i32(buf, 46);
        let mask = read_remaining_bytes(buf, 50);
        Ok(Self { layer, bx, by, bw, bh, x1, y1, x2, y2, x3, y3, x4, y4, mask })
    }

    fn serialize(&self, user_id: u8) -> (r: Vec<u8>)
        ensures
            r@ == ser::frame(145, user_id, self.spec_payload()),
    {
        let mut w: Vec<u8> = Vec::new();
        push_u16(&mut w, self.layer);
        push_i32(&mut w, self.bx);
        push_i32(&mut w, self.by);
        push_i32(&mut w, self.bw);
        push_i32(&mut w, self.bh);
        push_i32(&mut w, self.x1);
        push_i32(&mut w, self.y1);
        push_i32(&mut w, self.x2);
        push_i32(&mut w, self.y2);
        push_i32(&mut w, self.x3);
        push_i32(&mut w, self.y3);
        push_i32(&mut w, self.x4);
        push_i32(&mut w, self.y4);
        push_bytes(&mut w, self.mask.as_slice());
        assert(w@ =~= self.spec_payload());
        frame_message(145, user_id, w.as_slice())
    }

    /// A valid message is read back from its own payload
    #[verifier::spinoff_prover]
    #[verifier::rlimit(60)]
    pub proof fn lemma_roundtrip(&self)
        requires
            self.spec_valid(),
        ensures
            Self::spec_len_ok(self.spec_payload()),
            self.spec_decodes(self.spec_payload()),
    {
        let p = self.spec_payload();
        assert(p.subrange(0, 2) =~= ser::enc_u16(self.layer));
        ser::lemma_u16_at(p, 0, self.layer);
        assert(p.subrange(2, 6) =~= ser::enc_i32(self.bx));
        ser::lemma_i32_at(p, 2, self.bx);
        assert(p.subrange(6, 10) =~= ser::enc_i32(self.by));
        ser::lemma_i32_at(p, 6, self.by);
        assert(p.subrange(10, 14) =~= ser::enc_i32(self.bw));
        ser::lemma_i32_at(p, 10, self.bw);
        assert(p.subrange(14, 18) =~= ser::enc_i32(self.bh));
        ser::lemma_i32_at(p, 14, self.bh);
        assert(p.subrange(18, 22) =~= ser::enc_i32(self.x1));
        ser::lemma_i32_at(p, 18, self.x1);
        assert(p.subrange(22, 26) =~= ser::enc_i32(self.y1));
        ser::lemma_i32_at(p, 22, self.y1);
        assert(p.subrange(26, 30) =~= ser::enc_i32(self.x2));
        ser::lemma_i32_at(p, 26, self.x2);
        assert(p.subrange(30, 34) =~= ser::enc_i32(self.y2));
        ser::lemma_i32_at(p, 30, self.y2);
        assert(p.subrange(34, 38) =~= ser::enc_i32(self.x3));
        ser::lemma_i32_at(p, 34, self.x3);
        assert(p.subrange(38, 42) =~= ser::enc_i32(self.y3));
        ser::lemma_i32_at(p, 38, self.y3);
        assert(p.subrange(42, 46) =~= ser::enc_i32(self.x4));
        ser::lemma_i32_at(p, 42, self.x4);
        assert(p.subrange(46, 50) =~= ser::enc_i32(self.y4));
        ser::lemma_i32_at(p, 46, self.y4);
        assert(p.subrange(50, p.len() as int) =~= self.mask@);
    }

    /// Whether the payload is decoded without loss: booleans are 0 or 1 and
    /// strings are valid UTF-8
    pub open spec fn spec_canonical(p: Seq<u8>) -> bool {
        true
    }

    /// A payload that is decoded without loss is the encoding of what it decodes to
    pub proof fn lemma_reencode(&self, p: Seq<u8>)
        requires
            Self::spec_len_ok(p),
            self.spec_decodes(p),
            Self::spec_canonical(p),
        ensures
            self.spec_payload() == p,
    {
        ser::lemma_u16_reencode(p, 0);
        ser::lemma_i32_reencode(p, 2);
        ser::lemma_i32_reencode(p, 6);
        ser::lemma_i32_reencode(p, 10);
        ser::lemma_i32_reencode(p, 14);
        ser::lemma_i32_reencode(p, 18);
        ser::lemma_i32_reencode(p, 22);
        ser::lemma_i32_reencode(p, 26);
        ser::lemma_i32_reencode(p, 30);
        ser::lemma_i32_reencode(p, 34);
        ser::lemma_i32_reencode(p, 38);
        ser::lemma_i32_reencode(p, 42);
        ser::lemma_i32_reencode(p, 46);
        assert(p =~= p.subrange(0, 2) + p.subrange(2, 6) + p.subrange(6, 10) + p.subrange(10, 14) + p.subrange(14, 18) + p.subrange(18, 22) + p.subrange(22, 26) + p.subrange(26, 30) + p.subrange(30, 34) + p.subrange(34, 38) + p.subrange(38, 42) + p.subrange(42, 46) + p.subrange(46, 50) + p.subrange(50, p.len() as int));
    }
}

#[derive(Debug, PartialEq)]
pub struct PutTileMessage {
    pub layer: u16,
    pub col: u16,
    pub row: u16,
    pub repeat: u16,
    pub sublayer: u8,
    pub image: Vec<u8>,
}

impl PutTileMessage {
    /// The payload bytes of this message
    pub open spec fn spec_payload(&self) -> Seq<u8> {
        ser::enc_u16(self.layer) + ser::enc_u16(self.col) + ser::enc_u16(self.row) + ser::enc_u16(self.repeat) + ser::enc_u8(self.sublayer) + self.image@
    }

    /// Whether a payload of this length is accepted
    pub open spec fn spec_len_ok(p: Seq<u8>) -> bool {
        9 <= p.len() <= 65535
    }

    /// The error returned for a rejected payload
    pub open spec fn spec_error(p: Seq<u8>) -> DeserializationError {
        length_error(146, p.len())
    }

    /// Whether this message holds the fields decoded from payload `p`
    pub open spec fn spec_decodes(&self, p: Seq<u8>) -> bool {
        &&& self.layer == ser::dec_u16(p, 0)
        &&& self.col == ser::dec_u16(p, 2)
        &&& self.row == ser::dec_u16(p, 4)
        &&& self.repeat == ser::dec_u16(p, 6)
        &&& self.sublayer == p[8]
        &&& self.image@ == p.subrange(9, p.len() as int)
    }

    /// Whether this message can be encoded and read back
    pub open spec fn spec_valid(&self) -> bool {
        Self::spec_len_ok(self.spec_payload())
    }

    fn deserialize(buf: &[u8]) -> (r: Result<Self, DeserializationError>)
        ensures
            r is Ok <==> Self::spec_len_ok(buf@),
            r matches Ok(m) ==> m.spec_decodes(buf@),
            r matches Err(e) ==> e == Self::spec_error(buf@),
    {
        if let Err(e) = check_len(buf, 9, 65535, 146) {
            return Err(e);
        }
        let layer = read_u16(buf, 0);
        let col = read_u16(buf, 2);
        let row = read_u16(buf, 4);
        let repeat = read_u16(buf, 6);
        let sublayer = read_u8(buf, 8);
        let image = read_remaining_bytes(buf, 9);
        Ok(Self { layer, col, row, repeat, sublayer, image })
    }

    fn serialize(&self, user_id: u8) -> (r: Vec<u8>)
        ensures
            r@ == ser::frame(146, user_id, self.spec_payload()),
    {
        let mut w: Vec<u8> = Vec::new();
        push_u16(&mut w, self.layer);
        push_u16(&mut w, self.col);
        push_u16(&mut w, self.row);
        push_u16(&mut w, self.repeat);
        push_u8(&mut w, self.sublayer);
        push_bytes(&mut w, self.image.as_slice());
        assert(w@ =~= self.spec_payload());
        frame_message(146, user_id, w.as_slice())
    }

    /// A valid message is read back from its own payload
    pub proof fn lemma_roundtrip(&self)
        requires
            self.spec_valid(),
        ensures
            Self::spec_len_ok(self.spec_payload()),
            self.spec_decodes(self.spec_payload()),
    {
        let p = self.spec_payload();
        assert(p.subrange(0, 2) =~= ser::enc_u16(self.layer));
        ser::lemma_u16_at(p, 0, self.layer);
        assert(p.subrange(2, 4) =~= ser::enc_u16(self.col));
        ser::lemma_u16_at(p, 2, self.col);
        assert(p.subrange(4, 6) =~= ser::enc_u16(self.row));
        ser::lemma_u16_at(p, 4, self.row);
        assert(p.subrange(6, 8) =~= ser::enc_u16(self.repeat));
        ser::lemma_u16_at(p, 6, self.repeat);
        assert(p.subrange(8, 9) =~= ser::enc_u8(self.sublayer));
        ser::lemma_u8_at(p, 8, self.sublayer);
        assert(p.subrange(9, p.len() as int) =~= self.image@);
    }

    /// Whether the payload is decoded without loss: booleans are 0 or 1 and
    /// strings are valid UTF-8
    pub open spec fn spec_canonical(p: Seq<u8>) -> bool {
        true
    }

    /// A payload that is decoded without loss is the encoding of what it decodes to
    pub proof fn lemma_reencode(&self, p: Seq<u8>)
        requires
            Self::spec_len_ok(p),
            self.spec_decodes(p),
            Self::spec_canonical(p),
        ensures
            self.spec_payload() == p,
    {
        ser::lemma_u16_reencode(p, 0);
        ser::lemma_u16_reencode(p, 2);
        ser::lemma_u16_reencode(p, 4);
        ser::lemma_u16_reencode(p, 6);
        ser::lemma_u8_reencode(p, 8);
        assert(p =~= p.subrange(0, 2) + p.subrange(2, 4) + p.subrange(4, 6) + p.subrange(6, 8) + p.subrange(8, 9) + p.subrange(9, p.len() as int));
    }
}

#[derive(Debug, PartialEq, Clone, Copy)]
pub struct ClassicDab {
    pub x: i8,
    pub y: i8,
    pub size: u16,
    pub opacity: u8,
    pub hardness: u8,
}

/// Encoding of one classic dab (6 bytes)
pub open spec fn enc_classic_dab(d: ClassicDab) -> Seq<u8> {
    ser::enc_i8(d.x) + ser::enc_i8(d.y) + ser::enc_u16(d.size) + ser::enc_u8(d.opacity)
        + ser::enc_u8(d.hardness)
}

/// Encoding of a list of classic dabs
pub open spec fn enc_classic_dabs(v: Seq<ClassicDab>) -> Seq<u8>
    decreases v.len(),
{
    if v.len() == 0 {
        Seq::empty()
    } else {
        enc_classic_dabs(v.drop_last()) + enc_classic_dab(v.last())
    }
}

/// The classic dab stored at offset `i`
pub open spec fn classic_dab_at(p: Seq<u8>, i: int) -> ClassicDab {
    ClassicDab {
        x: ser::dec_i8(p, i),
        y: ser::dec_i8(p, i + 1),
        size: ser::dec_u16(p, i + 2),
        opacity: p[i + 4],
        hardness: p[i + 5],
    }
}

/// Each dab of an encoded list is read back from its own position
pub proof fn lemma_classic_dabs_at(pre: Seq<u8>, v: Seq<ClassicDab>)
    ensures
        enc_classic_dabs(v).len() == 6 * v.len(),
        forall|k: int|
            0 <= k < v.len() ==> #[trigger] classic_dab_at(
                pre + enc_classic_dabs(v),
                pre.len() + 6 * k,
            ) == v[k],
    decreases v.len(),
{
    if v.len() > 0 {
        let init = v.drop_last();
        lemma_classic_dabs_at(pre, init);
        let d = v.last();
        let s = pre + enc_classic_dabs(v);
        let si = pre + enc_classic_dabs(init);
        assert(s =~= si + enc_classic_dab(d));
        assert forall|k: int| 0 <= k < v.len() implies #[trigger] classic_dab_at(
            s,
            pre.len() + 6 * k,
        ) == v[k] by {
            let i = pre.len() + 6 * k;
            if k < init.len() {
                assert(s[i] == si[i] && s[i + 1] == si[i + 1] && s[i + 2] == si[i + 2] && s[i + 3]
                    == si[i + 3] && s[i + 4] == si[i + 4] && s[i + 5] == si[i + 5]);
                assert(classic_dab_at(si, i) == init[k]);
            } else {
                let e = enc_classic_dab(d);
                assert(s.subrange(i, i + 6) =~= e);
                assert(s.subrange(i, i + 1) =~= ser::enc_i8(d.x));
                ser::lemma_i8_at(s, i, d.x);
                assert(s.subrange(i + 1, i + 2) =~= ser::enc_i8(d.y));
                ser::lemma_i8_at(s, i + 1, d.y);
                assert(s.subrange(i + 2, i + 4) =~= ser::enc_u16(d.size));
                ser::lemma_u16_at(s, i + 2, d.size);
                assert(s[i + 4] == e[4] && s[i + 5] == e[5]);
            }
        }
    }
}

/// Decoding a run of classic dabs and encoding it again gives back the same bytes
pub proof fn lemma_classic_dabs_reencode(p: Seq<u8>, off: int, n: nat)
    requires
        0 <= off,
        off + 6 * n <= p.len(),
    ensures
        enc_classic_dabs(Seq::new(n, |k: int| classic_dab_at(p, off + 6 * k))) == p.subrange(
            off,
            off + 6 * n,
        ),
    decreases n,
{
    let v = Seq::new(n, |k: int| classic_dab_at(p, off + 6 * k));
    if n == 0 {
        assert(p.subrange(off, off) =~= Seq::<u8>::empty());
    } else {
        lemma_classic_dabs_reencode(p, off, (n - 1) as nat);
        assert(v.drop_last() =~= Seq::new((n - 1) as nat, |k: int| classic_dab_at(p, off + 6 * k)));
        let j = off + 6 * (n - 1);
        ser::lemma_i8_reencode(p, j);
        ser::lemma_i8_reencode(p, j + 1);
        ser::lemma_u16_reencode(p, j + 2);
        ser::lemma_u8_reencode(p, j + 4);
        ser::lemma_u8_reencode(p, j + 5);
        assert(p.subrange(j, j + 6) =~= p.subrange(j, j + 1) + p.subrange(j + 1, j + 2)
            + p.subrange(j + 2, j + 4) + p.subrange(j + 4, j + 5) + p.subrange(j + 5, j + 6));
        assert(p.subrange(off, off + 6 * n) =~= p.subrange(off, j) + p.subrange(j, j + 6));
    }
}

#[derive(Debug, PartialEq)]
pub struct DrawDabsClassicMessage {
    pub layer: u16,
    pub x: i32,
    pub y: i32,
    pub color: u32,
    pub mode: u8,
    pub dabs: Vec<ClassicDab>,
}

impl DrawDabsClassicMessage {
    pub const MAX_ITEMS: usize = 10920;

    /// The payload bytes of this message
    pub open spec fn spec_payload(&self) -> Seq<u8> {
        ser::enc_u16(self.layer) + ser::enc_i32(self.x) + ser::enc_i32(self.y) + ser::enc_u32(
            self.color,
        ) + ser::enc_u8(self.mode) + enc_classic_dabs(self.dabs@)
    }

    /// Whether the payload is accepted: its length is in bounds and the
    /// dab list holds a whole number of dabs
    pub open spec fn spec_len_ok(p: Seq<u8>) -> bool {
        &&& 21 <= p.len() <= 65535
        &&& (p.len() - 15) % 6 == 0
    }

    /// The error returned for a rejected payload
    pub open spec fn spec_error(p: Seq<u8>) -> DeserializationError {
        length_error(148, p.len())
    }

    /// Whether this message holds the fields decoded from payload `p`
    pub open spec fn spec_decodes(&self, p: Seq<u8>) -> bool {
        &&& self.layer == ser::dec_u16(p, 0)
        &&& self.x == ser::dec_i32(p, 2)
        &&& self.y == ser::dec_i32(p, 6)
        &&& self.color == ser::dec_u32(p, 10)
        &&& self.mode == p[14]
        &&& self.dabs@ == Seq::new(
            ((p.len() - 15) / 6) as nat,
            |k: int| classic_dab_at(p, 15 + 6 * k),
        )
    }

    /// Whether this message can be encoded and read back: it has between
    /// 1 and `MAX_ITEMS` dabs
    pub open spec fn spec_valid(&self) -> bool {
        Self::spec_len_ok(self.spec_payload())
    }

    fn deserialize(buf: &[u8]) -> (r: Result<Self, DeserializationError>)
        ensures
            r is Ok <==> Self::spec_len_ok(buf@),
            r matches Ok(m) ==> m.spec_decodes(buf@),
            r matches Err(e) ==> e == Self::spec_error(buf@),
    {
        if let Err(e) = check_len(buf, 21, 65535, 148) {
            return Err(e);
        }
        if (buf.len() - 15) % 6 != 0 {
            return Err(
                DeserializationError {
                    user_id: 0,
                    message_type: 148,
                    payload_len: buf.len(),
                    error: "Invalid payload length",
                },
            );
        }
        let layer = read_u16(buf, 0);
        let x = read_i32(buf, 2);
        let y = read_i32(buf, 6);
        let color = read_u32(buf, 10);
        let mode = read_u8(buf, 14);
        let n = (buf.len() - 15) / 6;
        let mut dabs: Vec<ClassicDab> = Vec::with_capacity(n);
        let mut k: usize = 0;
        while k < n
            invariant
                k <= n,
                n == (buf@.len() - 15) / 6,
                (buf@.len() - 15) % 6 == 0,
                21 <= buf@.len() <= 65535,
                dabs@ =~= Seq::new(k as nat, |j: int| classic_dab_at(buf@, 15 + 6 * j)),
            decreases n - k,
        {
            let pos = 15 + 6 * k;
            let dab = ClassicDab {
                x: read_i8(buf, pos),
                y: read_i8(buf, pos + 1),
                size: read_u16(buf, pos + 2),
                opacity: read_u8(buf, pos + 4),
                hardness: read_u8(buf, pos + 5),
            };
            dabs.push(dab);
            k += 1;
            assert(dabs@ =~= Seq::new(k as nat, |j: int| classic_dab_at(buf@, 15 + 6 * j)));
        }
        Ok(Self { layer, x, y, color, mode, dabs })
    }

    fn serialize(&self, user_id: u8) -> (r: Vec<u8>)
        ensures
            r@ == ser::frame(148, user_id, self.spec_payload()),
    {
        let mut w: Vec<u8> = Vec::new();
        push_u16(&mut w, self.layer);
        push_i32(&mut w, self.x);
        push_i32(&mut w, self.y);
        push_u32(&mut w, self.color);
        push_u8(&mut w, self.mode);
        let ghost header = w@;
        let mut i: usize = 0;
        while i < self.dabs.len()
            invariant
                i <= self.dabs@.len(),
                w@ == header + enc_classic_dabs(self.dabs@.subrange(0, i as int)),
            decreases self.dabs@.len() - i,
        {
            let d = self.dabs[i];
            push_i8(&mut w, d.x);
            push_i8(&mut w, d.y);
            push_u16(&mut w, d.size);
            push_u8(&mut w, d.opacity);
            push_u8(&mut w, d.hardness);
            i += 1;
            assert(self.dabs@.subrange(0, i as int).drop_last() =~= self.dabs@.subrange(
                0,
                i - 1,
            ));
            assert(w@ =~= header + enc_classic_dabs(self.dabs@.subrange(0, i as int)));
        }
        assert(self.dabs@.subrange(0, self.dabs@.len() as int) =~= self.dabs@);
        assert(w@ =~= self.spec_payload());
        frame_message(148, user_id, w.as_slice())
    }

    /// A valid message is read back from its own payload
    pub proof fn lemma_roundtrip(&self)
        requires
            self.spec_valid(),
        ensures
            Self::spec_len_ok(self.spec_payload()),
            self.spec_decodes(self.spec_payload()),
    {
        let p = self.spec_payload();
        let pre = ser::enc_u16(self.layer) + ser::enc_i32(self.x) + ser::enc_i32(self.y)
            + ser::enc_u32(self.color) + ser::enc_u8(self.mode);
        assert(p =~= pre + enc_classic_dabs(self.dabs@));
        lemma_classic_dabs_at(pre, self.dabs@);
        assert(p.subrange(0, 2) =~= ser::enc_u16(self.layer));
        ser::lemma_u16_at(p, 0, self.layer);
        assert(p.subrange(2, 6) =~= ser::enc_i32(self.x));
        ser::lemma_i32_at(p, 2, self.x);
        assert(p.subrange(6, 10) =~= ser::enc_i32(self.y));
        ser::lemma_i32_at(p, 6, self.y);
        assert(p.subrange(10, 14) =~= ser::enc_u32(self.color));
        ser::lemma_u32_at(p, 10, self.color);
        assert(p.subrange(14, 15) =~= ser::enc_u8(self.mode));
        ser::lemma_u8_at(p, 14, self.mode);
        assert(self.dabs@ =~= Seq::new(
            ((p.len() - 15) / 6) as nat,
            |k: int| classic_dab_at(p, 15 + 6 * k),
        ));
    }

    /// Every accepted payload is decoded without loss
    pub open spec fn spec_canonical(p: Seq<u8>) -> bool {
        true
    }

    /// A payload that is decoded without loss is the encoding of what it decodes to
    pub proof fn lemma_reencode(&self, p: Seq<u8>)
        requires
            Self::spec_len_ok(p),
            self.spec_decodes(p),
            Self::spec_canonical(p),
        ensures
            self.spec_payload() == p,
    {
        let n = ((p.len() - 15) / 6) as nat;
        lemma_classic_dabs_reencode(p, 15, n);
        assert(15 + 6 * n == p.len());
        ser::lemma_u16_reencode(p, 0);
        ser::lemma_i32_reencode(p, 2);
        ser::lemma_i32_reencode(p, 6);
        ser::lemma_u32_reencode(p, 10);
        ser::lemma_u8_reencode(p, 14);
        assert(p =~= p.subrange(0, 2) + p.subrange(2, 6) + p.subrange(6, 10) + p.subrange(10, 14)
            + p.subrange(14, 15) + p.subrange(15, p.len() as int));
    }
}

#[derive(Debug, PartialEq, Clone, Copy)]
pub struct PixelDab {
    pub x: i8,
    pub y: i8,
    pub size: u8,
    pub opacity: u8,
}

/// Encoding of one pixel dab (4 bytes)
pub open spec fn enc_pixel_dab(d: PixelDab) -> Seq<u8> {
    ser::enc_i8(d.x) + ser::enc_i8(d.y) + ser::enc_u8(d.size) + ser::enc_u8(d.opacity)
}

/// Encoding of a list of pixel dabs
pub open spec fn enc_pixel_dabs(v: Seq<PixelDab>) -> Seq<u8>
    decreases v.len(),
{
    if v.len() == 0 {
        Seq::empty()
    } else {
        enc_pixel_dabs(v.drop_last()) + enc_pixel_dab(v.last())
    }
}

/// The pixel dab stored at offset `i`
pub open spec fn pixel_dab_at(p: Seq<u8>, i: int) -> PixelDab {
    PixelDab {
        x: ser::dec_i8(p, i),
        y: ser::dec_i8(p, i + 1),
        size: p[i + 2],
        opacity: p[i + 3],
    }
}

/// Each dab of an encoded list is read back from its own position
pub proof fn lemma_pixel_dabs_at(pre: Seq<u8>, v: Seq<PixelDab>)
    ensures
        enc_pixel_dabs(v).len() == 4 * v.len(),
        forall|k: int|
            0 <= k < v.len() ==> #[trigger] pixel_dab_at(
                pre + enc_pixel_dabs(v),
                pre.len() + 4 * k,
            ) == v[k],
    decreases v.len(),
{
    if v.len() > 0 {
        let init = v.drop_last();
        lemma_pixel_dabs_at(pre, init);
        let d = v.last();
        let s = pre + enc_pixel_dabs(v);
        let si = pre + enc_pixel_dabs(init);
        assert(s =~= si + enc_pixel_dab(d));
        assert forall|k: int| 0 <= k < v.len() implies #[trigger] pixel_dab_at(
            s,
            pre.len() + 4 * k,
        ) == v[k] by {
            let i = pre.len() + 4 * k;
            if k < init.len() {
                assert(s[i] == si[i] && s[i + 1] == si[i + 1] && s[i + 2] == si[i + 2] && s[i + 3]
                    == si[i + 3]);
                assert(pixel_dab_at(si, i) == init[k]);
            } else {
                let e = enc_pixel_dab(d);
                assert(s.subrange(i, i + 4) =~= e);
                assert(s.subrange(i, i + 1) =~= ser::enc_i8(d.x));
                ser::lemma_i8_at(s, i, d.x);
                assert(s.subrange(i + 1, i + 2) =~= ser::enc_i8(d.y));
                ser::lemma_i8_at(s, i + 1, d.y);
                assert(s[i + 2] == e[2] && s[i + 3] == e[3]);
            }
        }
    }
}

/// Decoding a run of pixel dabs and encoding it again gives back the same bytes
pub proof fn lemma_pixel_dabs_reencode(p: Seq<u8>, off: int, n: nat)
    requires
        0 <= off,
        off + 4 * n <= p.len(),
    ensures
        enc_pixel_dabs(Seq::new(n, |k: int| pixel_dab_at(p, off + 4 * k))) == p.subrange(
            off,
            off + 4 * n,
        ),
    decreases n,
{
    let v = Seq::new(n, |k: int| pixel_dab_at(p, off + 4 * k));
    if n == 0 {
        assert(p.subrange(off, off) =~= Seq::<u8>::empty());
    } else {
        lemma_pixel_dabs_reencode(p, off, (n - 1) as nat);
        assert(v.drop_last() =~= Seq::new((n - 1) as nat, |k: int| pixel_dab_at(p, off + 4 * k)));
        let j = off + 4 * (n - 1);
        ser::lemma_i8_reencode(p, j);
        ser::lemma_i8_reencode(p, j + 1);
        ser::lemma_u8_reencode(p, j + 2);
        ser::lemma_u8_reencode(p, j + 3);
        assert(p.subrange(j, j + 4) =~= p.subrange(j, j + 1) + p.subrange(j + 1, j + 2)
            + p.subrange(j + 2, j + 3) + p.subrange(j + 3, j + 4));
        assert(p.subrange(off, off + 4 * n) =~= p.subrange(off, j) + p.subrange(j, j + 4));
    }
}

#[derive(Debug, PartialEq)]
pub struct DrawDabsPixelMessage {
    pub layer: u16,
    pub x: i32,
    pub y: i32,
    pub color: u32,
    pub mode: u8,
    pub dabs: Vec<PixelDab>,
}

impl DrawDabsPixelMessage {
    pub const MAX_ITEMS: usize = 16380;

    /// The payload bytes of this message
    pub open spec fn spec_payload(&self) -> Seq<u8> {
        ser::enc_u16(self.layer) + ser::enc_i32(self.x) + ser::enc_i32(self.y) + ser::enc_u32(
            self.color,
        ) + ser::enc_u8(self.mode) + enc_pixel_dabs(self.dabs@)
    }

    /// Whether the payload is accepted: its length is in bounds and the
    /// dab list holds a whole number of dabs
    pub open spec fn spec_len_ok(p: Seq<u8>) -> bool {
        &&& 19 <= p.len() <= 65535
        &&& (p.len() - 15) % 4 == 0
    }

    /// The error returned for a rejected payload
    pub open spec fn spec_error(p: Seq<u8>) -> DeserializationError {
        length_error(149, p.len())
    }

    /// Whether this message holds the fields decoded from payload `p`
    pub open spec fn spec_decodes(&self, p: Seq<u8>) -> bool {
        &&& self.layer == ser::dec_u16(p, 0)
        &&& self.x == ser::dec_i32(p, 2)
        &&& self.y == ser::dec_i32(p, 6)
        &&& self.color == ser::dec_u32(p, 10)
        &&& self.mode == p[14]
        &&& self.dabs@ == Seq::new(
            ((p.len() - 15) / 4) as nat,
            |k: int| pixel_dab_at(p, 15 + 4 * k),
        )
    }

    /// Whether this message can be encoded and read back: it has between
    /// 1 and `MAX_ITEMS` dabs
    pub open spec fn spec_valid(&self) -> bool {
        Self::spec_len_ok(self.spec_payload())
    }

    fn deserialize(buf: &[u8]) -> (r: Result<Self, DeserializationError>)
        ensures
            r is Ok <==> Self::spec_len_ok(buf@),
            r matches Ok(m) ==> m.spec_decodes(buf@),
            r matches Err(e) ==> e == Self::spec_error(buf@),
    {
        if let Err(e) = check_len(buf, 19, 65535, 149) {
            return Err(e);
        }
        if (buf.len() - 15) % 4 != 0 {
            return Err(
                DeserializationError {
                    user_id: 0,
                    message_type: 149,
                    payload_len: buf.len(),
                    error: "Invalid payload length",
                },
            );
        }
        let layer = read_u16(buf, 0);
        let x = read_i32(buf, 2);
        let y = read_i32(buf, 6);
        let color = read_u32(buf, 10);
        let mode = read_u8(buf, 14);
        let n = (buf.len() - 15) / 4;
        let mut dabs: Vec<PixelDab> = Vec::with_capacity(n);
        let mut k: usize = 0;
        while k < n
            invariant
                k <= n,
                n == (buf@.len() - 15) / 4,
                (buf@.len() - 15) % 4 == 0,
                19 <= buf@.len() <= 65535,
                dabs@ =~= Seq::new(k as nat, |j: int| pixel_dab_at(buf@, 15 + 4 * j)),
            decreases n - k,
        {
            let pos = 15 + 4 * k;
            let dab = PixelDab {
                x: read_i8(buf, pos),
                y: read_i8(buf, pos + 1),
                size: read_u8(buf, pos + 2),
                opacity: read_u8(buf, pos + 3),
            };
            dabs.push(dab);
            k += 1;
            assert(dabs@ =~= Seq::new(k as nat, |j: int| pixel_dab_at(buf@, 15 + 4 * j)));
        }
        Ok(Self { layer, x, y, color, mode, dabs })
    }

    fn serialize(&self, user_id: u8) -> (r: Vec<u8>)
        ensures
            r@ == ser::frame(149, user_id, self.spec_payload()),
    {
        let mut w: Vec<u8> = Vec::new();
        push_u16(&mut w, self.layer);
        push_i32(&mut w, self.x);
        push_i32(&mut w, self.y);
        push_u32(&mut w, self.color);
        push_u8(&mut w, self.mode);
        let ghost header = w@;
        let mut i: usize = 0;
        while i < self.dabs.len()
            invariant
                i <= self.dabs@.len(),
                w@ == header + enc_pixel_dabs(self.dabs@.subrange(0, i as int)),
            decreases self.dabs@.len() - i,
        {
            let d = self.dabs[i];
            push_i8(&mut w, d.x);
            push_i8(&mut w, d.y);
            push_u8(&mut w, d.size);
            push_u8(&mut w, d.opacity);
            i += 1;
            assert(self.dabs@.subrange(0, i as int).drop_last() =~= self.dabs@.subrange(
                0,
                i - 1,
            ));
            assert(w@ =~= header + enc_pixel_dabs(self.dabs@.subrange(0, i as int)));
        }
        assert(self.dabs@.subrange(0, self.dabs@.len() as int) =~= self.dabs@);
        assert(w@ =~= self.spec_payload());
        frame_message(149, user_id, w.as_slice())
    }

    /// A valid message is read back from its own payload
    pub proof fn lemma_roundtrip(&self)
        requires
            self.spec_valid(),
        ensures
            Self::spec_len_ok(self.spec_payload()),
            self.spec_decodes(self.spec_payload()),
    {
        let p = self.spec_payload();
        let pre = ser::enc_u16(self.layer) + ser::enc_i32(self.x) + ser::enc_i32(self.y)
            + ser::enc_u32(self.color) + ser::enc_u8(self.mode);
        assert(p =~= pre + enc_pixel_dabs(self.dabs@));
        lemma_pixel_dabs_at(pre, self.dabs@);
        assert(p.subrange(0, 2) =~= ser::enc_u16(self.layer));
        ser::lemma_u16_at(p, 0, self.layer);
        assert(p.subrange(2, 6) =~= ser::enc_i32(self.x));
        ser::lemma_i32_at(p, 2, self.x);
        assert(p.subrange(6, 10) =~= ser::enc_i32(self.y));
        ser::lemma_i32_at(p, 6, self.y);
        assert(p.subrange(10, 14) =~= ser::enc_u32(self.color));
        ser::lemma_u32_at(p, 10, self.color);
        assert(p.subrange(14, 15) =~= ser::enc_u8(self.mode));
        ser::lemma_u8_at(p, 14, self.mode);
        assert(self.dabs@ =~= Seq::new(
            ((p.len() - 15) / 4) as nat,
            |k: int| pixel_dab_at(p, 15 + 4 * k),
        ));
    }

    /// Every accepted payload is decoded without loss
    pub open spec fn spec_canonical(p: Seq<u8>) -> bool {
        true
    }

    /// A payload that is decoded without loss is the encoding of what it decodes to
    pub proof fn lemma_reencode(&self, p: Seq<u8>)
        requires
            Self::spec_len_ok(p),
            self.spec_decodes(p),
            Self::spec_canonical(p),
        ensures
            self.spec_payload() == p,
    {
        let n = ((p.len() - 15) / 4) as nat;
        lemma_pixel_dabs_reencode(p, 15, n);
        assert(15 + 4 * n == p.len());
        ser::lemma_u16_reencode(p, 0);
        ser::lemma_i32_reencode(p, 2);
        ser::lemma_i32_reencode(p, 6);
        ser::lemma_u32_reencode(p, 10);
        ser::lemma_u8_reencode(p, 14);
        assert(p =~= p.subrange(0, 2) + p.subrange(2, 6) + p.subrange(6, 10) + p.subrange(10, 14)
            + p.subrange(14, 15) + p.subrange(15, p.len() as int));
    }
}

#[derive(Debug, PartialEq)]
pub struct UndoMessage {
    pub override_user: u8,
    pub redo: bool,
}

impl UndoMessage {
    /// The payload bytes of this message
    pub open spec fn spec_payload(&self) -> Seq<u8> {
        ser::enc_u8(self.override_user) + ser::enc_bool(self.redo)
    }

    /// Whether a payload of this length is accepted
    pub open spec fn spec_len_ok(p: Seq<u8>) -> bool {
        2 <= p.len() <= 2
    }

    /// The error returned for a rejected payload
    pub open spec fn spec_error(p: Seq<u8>) -> DeserializationError {
        length_error(255, p.len())
    }

    /// Whether this message holds the fields decoded from payload `p`
    pub open spec fn spec_decodes(&self, p: Seq<u8>) -> bool {
        &&& self.override_user == p[0]
        &&& self.redo == ser::dec_bool(p, 1)
    }

    /// Whether this message can be encoded and read back
    pub open spec fn spec_valid(&self) -> bool {
        Self::spec_len_ok(self.spec_payload())
    }

    fn deserialize(buf: &[u8]) -> (r: Result<Self, DeserializationError>)
        ensures
            r is Ok <==> Self::spec_len_ok(buf@),
            r matches Ok(m) ==> m.spec_decodes(buf@),
            r matches Err(e) ==> e == Self::spec_error(buf@),
    {
        if let Err(e) = check_len(buf, 2, 2, 255) {
            return Err(e);
        }
        let override_user = read_u8(buf, 0);
        let redo = read_bool(buf, 1);
        Ok(Self { override_user, redo })
    }

    fn serialize(&self, user_id: u8) -> (r: Vec<u8>)
        ensures
            r@ == ser::frame(255, user_id, self.spec_payload()),
    {
        let mut w: Vec<u8> = Vec::new();
        push_u8(&mut w, self.override_user);
        push_bool(&mut w, self.redo);
        assert(w@ =~= self.spec_payload());
        frame_message(255, user_id, w.as_slice())
    }

    /// A valid message is read back from its own payload
    pub proof fn lemma_roundtrip(&self)
        requires
            self.spec_valid(),
        ensures
            Self::spec_len_ok(self.spec_payload()),
            self.spec_decodes(self.spec_payload()),
    {
        let p = self.spec_payload();
        assert(p.subrange(0, 1) =~= ser::enc_u8(self.override_user));
        ser::lemma_u8_at(p, 0, self.override_user);
        assert(p.subrange(1, 2) =~= ser::enc_bool(self.redo));
        ser::lemma_bool_at(p, 1, self.redo);
    }

    /// Whether the payload is decoded without loss: booleans are 0 or 1 and
    /// strings are valid UTF-8
    pub open spec fn spec_canonical(p: Seq<u8>) -> bool {
        &&& p[1] <= 1
    }

    /// A payload that is decoded without loss is the encoding of what it decodes to
    pub proof fn lemma_reencode(&self, p: Seq<u8>)
        requires
            Self::spec_len_ok(p),
            self.spec_decodes(p),
            Self::spec_canonical(p),
        ensures
            self.spec_payload() == p,
    {
        ser::lemma_u8_reencode(p, 0);
        ser::lemma_bool_reencode(p, 1);
        assert(p =~= p.subrange(0, 1) + p.subrange(1, 2));
    }
}

#[derive(Debug, PartialEq)]
pub enum Body {
    /// Server command message
    ///
    /// This is a general purpose message for sending commands to the server
    /// and receiving replies. This is used for (among other things):
    ///
    /// - the login handshake
    /// - setting session parameters (e.g. max user count and password)
    /// - sending administration commands (e.g. kick user)
    ///
    Command(String),

    /// Disconnect notification
    ///
    /// This message is used when closing the connection gracefully. The message queue
    /// will automatically close the socket after sending this message.
    ///
    Disconnect(DisconnectMessage),

    /// Ping message
    ///
    /// This is used for latency measurement as well as a keepalive. Normally, the client
    /// should be the one to send the ping messages.
    ///
    /// The server should return a Ping with the is_pong flag set
    ///
    Ping(bool),

    /// Inform the client of a new user
    ///
    /// This message is sent only be the server. It associates a username
    /// with a context ID.
    ///
    Join(JoinMessage),

    /// Inform the client of a user leaving
    ///
    /// This message is sent only by the server. Upon receiving this message,
    /// clients will typically remove the user from the user listing. The client
    /// is also allowed to release resources associated with this context ID.
    ///
    Leave,

    /// Session ownership change
    ///
    /// This message sets the users who have operator status. It can be
    /// sent by users who are already operators or by the server (user id=0).
    ///
    /// The list of operators implicitly contains the user who sends the
    /// message, thus users cannot deop themselves.
    ///
    /// The server sanitizes the ID list so, when distributed to other users,
    /// it does not contain any duplicates or non-existing users and can be trusted
    /// without checking the access control list.
    ///
    SessionOwner(Vec<u8>),

    /// A chat message
    ///
    /// Chat message sent by the server with the user ID 0 are server messages.
    /// (Typically a Command message is used for server announcements, but the Chat message
    /// is used for those messages that must be stored in the session history.)
    ///
    Chat(ChatMessage),

    /// List of trusted users
    ///
    /// This message sets the list of user who have been tagged as trusted,
    /// but who are not operators. The meaning of "trusted" is a mostly
    /// clientside concept, but the session can be configured to allow trusted
    /// users access to some operator commands. (Deputies)
    ///
    /// This command can be sent by operators or by the server (ctx=0).
    ///
    /// The server sanitizes the ID list so, when distributed to other users,
    /// it does not contain any duplicates or non-existing users and can be trusted
    /// without checking the access control list.
    ///
    TrustedUsers(Vec<u8>),

    /// Soft reset point marker
    ///
    /// This message marks the point in the session history where a soft reset occurs.
    /// A thick-server performs an internal soft-reset when a user joins.
    ///
    /// All users should truncate their own session history when receiving this message,
    /// since undos cannot cross the reset boundary.
    ///
    SoftReset,

    /// A private chat message
    ///
    /// Note. This message type was added in protocol 4.21.2 (v. 2.1.0). For backward compatiblity,
    /// the server will not send any private messages from itself; it will only relay them from
    /// other users. In version 3.0, this should be merged with the normal Chat message.
    ///
    /// Private messages always bypass the session history.
    ///
    PrivateChat(PrivateChatMessage),

    /// Event interval record
    ///
    /// This is used to preserve timing information in session recordings.
    ///
    /// Note. The maximum interval (using a single message) is about 65 seconds.
    /// Typically the intervals we want to store are a few seconds at most, so this should be enough.
    ///
    Interval(u16),

    /// Start/end drawing pointer laser trail
    ///
    /// This signals the beginning or the end of a laser pointer trail. The trail coordinates
    /// are sent with MovePointer messages.
    ///
    /// A nonzero persistence indicates the start of the trail and zero the end.
    ///
    LaserTrail(LaserTrailMessage),

    /// Move user pointer
    ///
    /// This is message is used to update the position of the user pointer when no
    /// actual drawing is taking place. It is also used to draw the "laser pointer" trail.
    /// Note. This is a META message, since this is used for a temporary visual effect only,
    /// and thus doesn't affect the actual canvas content.
    ///
    /// The pointer position is given in integer coordinates.
    ///
    MovePointer(MovePointerMessage),

    /// A bookmark
    ///
    /// This is used to bookmark points in the session for quick access when playing back a recording
    ///
    Marker(String),

    /// Set user specific locks
    ///
    /// This is an opaque meta command that contains a list of users to be locked.
    /// It can only be sent by session operators.
    ///
    UserACL(Vec<u8>),

    /// Change layer access control list
    ///
    /// This is an opaque meta command. It is used to set the general layer lock
    /// as well as give exclusive access to selected users.
    ///
    /// When the OWNLAYERS mode is set, any user can use this to change the ACLs on layers they themselves
    /// have created (identified by the ID prefix.)
    ///
    /// Using layer ID 0 sets or clears a general canvaswide lock. The tier and exclusive user list is not
    /// used in this case.
    ///
    /// The eighth bit of the flags field (0x80) indicates whether the layer is locked in general.
    /// The first three bits (0x07) indicate the access tier level.
    ///
    LayerACL(LayerACLMessage),

    /// Change feature access tiers
    FeatureAccessLevels(Vec<u8>),

    /// Set the default layer
    ///
    /// The default layer is the one new users default to when logging in.
    /// If no default layer is set, the newest layer will be selected by default.
    ///
    DefaultLayer(u16),

    /// A message that has been filtered away by the ACL filter
    ///
    /// This is only used in recordings for mainly debugging purposes.
    /// This message should never be sent over the network.
    ///
    Filtered(Vec<u8>),

    /// Undo demarcation point
    ///
    /// The client sends an UndoPoint message to signal the start of an undoable sequence.
    ///
    UndoPoint,

    /// Adjust canvas size
    ///
    /// This is the first command that must be sent to initialize the session.
    ///
    /// This affects the size of all existing and future layers.
    ///
    /// The new canvas size is relative to the old one. The four adjustement
    /// parameters extend or retract their respective borders.
    /// Initial canvas resize should be (0, w, h, 0).
    ///
    CanvasResize(CanvasResizeMessage),

    /// Create a new layer
    ///
    /// A session starts with zero layers, so a layer creation command is typically
    /// the second command to be sent, right after setting the canvas size.
    ///
    /// The layer ID must be prefixed with the context ID of the user creating it.
    /// This allows the client to choose the layer ID without worrying about
    /// clashes. In multiuser mode the ACL filter validates the prefix for all new layers.
    ///
    /// The following flags can be used with layer creation:
    /// - COPY: a copy of the Source layer is made, rather than a blank layer
    /// - INSERT: the new layer is inserted above the Source layer. Source 0 means
    ///           the layer will be placed bottom-most on the stack
    ///
    /// The Source layer ID should be zero when COPY or INSERT flags are not used.
    /// When COPY is used, it should refer to an existing layer. Copy commands
    /// referring to missing layers are dropped.
    /// When INSERT is used, referring to 0 or a nonexistent layer places
    /// the new layer at the bottom of the stack.
    ///
    /// If layer controls are locked, this command requires session operator privileges.
    ///
    LayerCreate(LayerCreateMessage),

    /// Change layer attributes
    ///
    /// If the target layer is locked, this command requires session operator privileges.
    ///
    /// Specifying a sublayer requires session operator privileges. Currently, it is used
    /// only when sublayers are needed at canvas initialization.
    ///
    LayerAttributes(LayerAttributesMessage),

    /// Change a layer's title
    LayerRetitle(LayerRetitleMessage),

    /// Reorder layers
    ///
    /// New layers are always added to the top of the stack.
    /// This command includes a list of layer IDs that define the new stacking order.
    ///
    /// An order change should list all layers in the stack, but due to synchronization issues, that
    /// is not always possible.
    /// The layer order should therefore be sanitized by removing all layers not in the current layer stack
    /// and adding all missing layers to the end in their current relative order.
    ///
    /// For example: if the current stack is [1,2,3,4,5] and the client receives
    /// a reordering command [3,4,1], the missing layers are appended: [3,4,1,2,5].
    ///
    /// If layer controls are locked, this command requires session operator privileges.
    ///
    LayerOrder(Vec<u16>),

    /// Delete a layer
    ///
    /// If the merge attribute is set, the contents of the layer is merged
    /// to the layer below it. Merging the bottom-most layer does nothing.
    ///
    /// If the current layer or layer controls in general are locked, this command
    /// requires session operator privileges.
    ///
    LayerDelete(LayerDeleteMessage),

    /// Change layer visibility
    ///
    /// This command is used to toggle the layer visibility for the local user.
    /// (I.e. any user is allowed to send this command and it has no effect on
    /// other users.)
    /// Even though this only affects the sending user, this message can be
    /// sent through the official session history to keep the architecture simple.
    ///
    /// Note: to hide the layer for all users, use LayerAttributes to set its opacity
    /// to zero.
    ///
    LayerVisibility(LayerVisibilityMessage),

    /// Draw a bitmap onto a layer
    ///
    /// This is used for pasting images, floodfill, merging annotations and
    /// other tasks where image processing is done clientisde.
    ///
    /// All layer blending modes are supported.
    ///
    /// The image data is DEFLATEd 32bit premultiplied ARGB data. The image
    /// is prefixed with a 32 bit unsigned integer (big endian) which contains
    /// the expected length of the uncompressed data.
    ///
    /// Note that since the message length is fairly limited, a
    /// large image may have to be divided into multiple PutImage
    /// commands.
    ///
    PutImage(PutImageMessage),

    /// Fill a rectangle with solid color
    FillRect(FillRectMessage),

    /// Pen up command
    ///
    /// The pen up command signals the end of a stroke. In indirect drawing mode, it causes
    /// indirect dabs (by this user) to be merged to their parent layers.
    ///
    PenUp,

    /// Create a new annotation
    ///
    /// Annotations are floating text layers. They are drawn over the image layers and
    /// have no defined stacking order.
    ///
    /// The new annotation created with this command is initally empy with a transparent background
    ///
    AnnotationCreate(AnnotationCreateMessage),

    /// Change the position and size of an annotation
    AnnotationReshape(AnnotationReshapeMessage),

    /// Change annotation content
    ///
    /// Accepted contents is the subset of HTML understood by QTextDocument
    ///
    /// If an annotation is flagged as protected, it cannot be modified by users
    /// other than the one who created it, or session operators.
    ///
    AnnotationEdit(AnnotationEditMessage),

    /// Delete an annotation
    ///
    /// Note: Unlike in layer delete command, there is no "merge" option here.
    /// Merging an annotation is done by rendering the annotation item to
    /// an image and drawing the image with the PutImage command. This ensures
    /// identical rendering on all clients.
    ///
    AnnotationDelete(u16),

    /// Move (and transform) a region of a layer.
    ///
    /// This is used to implement selection moving. It is equivalent
    /// to doing two PutImages: the first to mask away the old
    /// selection and the other to paste the selection to a new location.
    /// This command packages that into a single action that is more
    /// bandwidth efficient and can be used even when PutImages in general
    /// are locked, since it's not introducing any new pixels onto the canvas.
    /// Internally, the paint engine performs the following steps:
    ///
    /// 1. Copy selected pixels to a buffer
    /// 2. Erase selected pixels from the layer
    /// 3. Composite transformed buffer onto the layer.
    ///
    /// The pixel selection is determined by the mask bitmap. The mask
    /// is DEFLATEd 1 bit per pixel bitmap data.
    /// For axis aligned rectangle selections, no bitmap is necessary.
    ///
    MoveRegion(MoveRegionMessage),

    /// Set the content of a tile
    ///
    /// Unlike PutImage, this replaces an entire tile directly without any blending.
    /// This command is typically used during canvas initialization to set the initial content.
    ///
    /// PutTile can target sublayers as well. This is used when generating a reset image
    /// with incomplete indirect strokes. Sending a PenUp command will merge the sublayer.
    ///
    PutTile(PutTileMessage),

    /// Set the canvas background tile
    ///
    /// If the payload is exactly 4 bytes long, it should be interpreted as a solid background color.
    /// Otherwise, it is the DEFLATED tile bitmap
    ///
    CanvasBackground(Vec<u8>),

    /// Draw classic brush dabs
    ///
    /// A simple delta compression scheme is used.
    /// The coordinates of each dab are relative to the previous dab.
    /// The coordinate system has 1/4 pixel resolution. Divide by 4.0 before use.
    /// The size field is the brush diameter multiplied by 256.
    ///
    DrawDabsClassic(DrawDabsClassicMessage),

    /// Draw round pixel brush dabs
    ///
    /// The same kind of delta compression is used as in classicdabs,
    /// but the fields all have integer precision.
    ///
    DrawDabsPixel(DrawDabsPixelMessage),

    /// Draw square pixel brush dabs
    DrawDabsPixelSquare(DrawDabsPixelMessage),

    /// Undo or redo actions
    Undo(UndoMessage),
}

impl Body {
    /// The message type this body is encoded with
    pub open spec fn spec_type(&self) -> u8 {
        match self {
            Body::Command(_) => 0,
            Body::Disconnect(_) => 1,
            Body::Ping(_) => 2,
            Body::Join(_) => 32,
            Body::Leave => 33,
            Body::SessionOwner(_) => 34,
            Body::Chat(_) => 35,
            Body::TrustedUsers(_) => 36,
            Body::SoftReset => 37,
            Body::PrivateChat(_) => 38,
            Body::Interval(_) => 64,
            Body::LaserTrail(_) => 65,
            Body::MovePointer(_) => 66,
            Body::Marker(_) => 67,
            Body::UserACL(_) => 68,
            Body::LayerACL(_) => 69,
            Body::FeatureAccessLevels(_) => 70,
            Body::DefaultLayer(_) => 71,
            Body::Filtered(_) => 72,
            Body::UndoPoint => 128,
            Body::CanvasResize(_) => 129,
            Body::LayerCreate(_) => 130,
            Body::LayerAttributes(_) => 131,
            Body::LayerRetitle(_) => 132,
            Body::LayerOrder(_) => 133,
            Body::LayerDelete(_) => 134,
            Body::LayerVisibility(_) => 135,
            Body::PutImage(_) => 136,
            Body::FillRect(_) => 137,
            Body::PenUp => 140,
            Body::AnnotationCreate(_) => 141,
            Body::AnnotationReshape(_) => 142,
            Body::AnnotationEdit(_) => 143,
            Body::AnnotationDelete(_) => 144,
            Body::MoveRegion(_) => 145,
            Body::PutTile(_) => 146,
            Body::CanvasBackground(_) => 147,
            Body::DrawDabsClassic(_) => 148,
            Body::DrawDabsPixel(_) => 149,
            Body::DrawDabsPixelSquare(_) => 149,
            Body::Undo(_) => 255,
        }
    }

    /// The payload bytes this body is encoded as
    pub open spec fn spec_payload(&self) -> Seq<u8> {
        match self {
            Body::Command(b) => ser::enc_str(b@),
            Body::Disconnect(b) => b.spec_payload(),
            Body::Ping(b) => ser::enc_bool(*b),
            Body::Join(b) => b.spec_payload(),
            Body::Leave => Seq::empty(),
            Body::SessionOwner(b) => b@,
            Body::Chat(b) => b.spec_payload(),
            Body::TrustedUsers(b) => b@,
            Body::SoftReset => Seq::empty(),
            Body::PrivateChat(b) => b.spec_payload(),
            Body::Interval(b) => ser::enc_u16(*b),
            Body::LaserTrail(b) => b.spec_payload(),
            Body::MovePointer(b) => b.spec_payload(),
            Body::Marker(b) => ser::enc_str(b@),
            Body::UserACL(b) => b@,
            Body::LayerACL(b) => b.spec_payload(),
            Body::FeatureAccessLevels(b) => b@,
            Body::DefaultLayer(b) => ser::enc_u16(*b),
            Body::Filtered(b) => b@,
            Body::UndoPoint => Seq::empty(),
            Body::CanvasResize(b) => b.spec_payload(),
            Body::LayerCreate(b) => b.spec_payload(),
            Body::LayerAttributes(b) => b.spec_payload(),
            Body::LayerRetitle(b) => b.spec_payload(),
            Body::LayerOrder(b) => ser::enc_u16_seq(b@),
            Body::LayerDelete(b) => b.spec_payload(),
            Body::LayerVisibility(b) => b.spec_payload(),
            Body::PutImage(b) => b.spec_payload(),
            Body::FillRect(b) => b.spec_payload(),
            Body::PenUp => Seq::empty(),
            Body::AnnotationCreate(b) => b.spec_payload(),
            Body::AnnotationReshape(b) => b.spec_payload(),
            Body::AnnotationEdit(b) => b.spec_payload(),
            Body::AnnotationDelete(b) => ser::enc_u16(*b),
            Body::MoveRegion(b) => b.spec_payload(),
            Body::PutTile(b) => b.spec_payload(),
            Body::CanvasBackground(b) => b@,
            Body::DrawDabsClassic(b) => b.spec_payload(),
            Body::DrawDabsPixel(b) => b.spec_payload(),
            Body::DrawDabsPixelSquare(b) => b.spec_payload(),
            Body::Undo(b) => b.spec_payload(),
        }
    }

    /// The payload length declared in the message header
    pub open spec fn spec_declared_len(&self) -> u16 {
        match self {
            Body::Join(b) => b.spec_declared_len(),
            _ => (self.spec_payload().len() % 0x1_0000) as u16,
        }
    }

    /// Whether this body can be encoded and read back: its payload fits the
    /// bounds of its message type
    pub open spec fn spec_valid(&self) -> bool {
        match self {
            Body::Command(b) => self.spec_payload().len() <= 65535,
            Body::Disconnect(b) => b.spec_valid(),
            Body::Ping(b) => true,
            Body::Join(b) => b.spec_valid(),
            Body::Leave => true,
            Body::SessionOwner(b) => 0 <= b@.len() <= 255,
            Body::Chat(b) => b.spec_valid(),
            Body::TrustedUsers(b) => 0 <= b@.len() <= 255,
            Body::SoftReset => true,
            Body::PrivateChat(b) => b.spec_valid(),
            Body::Interval(b) => true,
            Body::LaserTrail(b) => b.spec_valid(),
            Body::MovePointer(b) => b.spec_valid(),
            Body::Marker(b) => self.spec_payload().len() <= 65535,
            Body::UserACL(b) => 0 <= b@.len() <= 255,
            Body::LayerACL(b) => b.spec_valid(),
            Body::FeatureAccessLevels(b) => 9 <= b@.len() <= 9,
            Body::DefaultLayer(b) => true,
            Body::Filtered(b) => self.spec_payload().len() <= 65535,
            Body::UndoPoint => true,
            Body::CanvasResize(b) => b.spec_valid(),
            Body::LayerCreate(b) => b.spec_valid(),
            Body::LayerAttributes(b) => b.spec_valid(),
            Body::LayerRetitle(b) => b.spec_valid(),
            Body::LayerOrder(b) => self.spec_payload().len() <= 65535,
            Body::LayerDelete(b) => b.spec_valid(),
            Body::LayerVisibility(b) => b.spec_valid(),
            Body::PutImage(b) => b.spec_valid(),
            Body::FillRect(b) => b.spec_valid(),
            Body::PenUp => true,
            Body::AnnotationCreate(b) => b.spec_valid(),
            Body::AnnotationReshape(b) => b.spec_valid(),
            Body::AnnotationEdit(b) => b.spec_valid(),
            Body::AnnotationDelete(b) => true,
            Body::MoveRegion(b) => b.spec_valid(),
            Body::PutTile(b) => b.spec_valid(),
            Body::CanvasBackground(b) => self.spec_payload().len() <= 65535,
            Body::DrawDabsClassic(b) => b.spec_valid(),
            Body::DrawDabsPixel(b) => b.spec_valid(),
            Body::DrawDabsPixelSquare(b) => b.spec_valid(),
            Body::Undo(b) => b.spec_valid(),
        }
    }

    /// Whether a payload of the given message type is accepted
    pub open spec fn spec_ok(message_type: u8, p: Seq<u8>) -> bool {
        match message_type {
            0u8 => true,
            1u8 => DisconnectMessage::spec_len_ok(p),
            2u8 => 1 <= p.len() <= 1,
            32u8 => JoinMessage::spec_len_ok(p),
            33u8 => true,
            34u8 => 0 <= p.len() <= 255,
            35u8 => ChatMessage::spec_len_ok(p),
            36u8 => 0 <= p.len() <= 255,
            37u8 => true,
            38u8 => PrivateChatMessage::spec_len_ok(p),
            64u8 => 2 <= p.len() <= 2,
            65u8 => LaserTrailMessage::spec_len_ok(p),
            66u8 => MovePointerMessage::spec_len_ok(p),
            67u8 => true,
            68u8 => 0 <= p.len() <= 255,
            69u8 => LayerACLMessage::spec_len_ok(p),
            70u8 => 9 <= p.len() <= 9,
            71u8 => 2 <= p.len() <= 2,
            72u8 => true,
            128u8 => true,
            129u8 => CanvasResizeMessage::spec_len_ok(p),
            130u8 => LayerCreateMessage::spec_len_ok(p),
            131u8 => LayerAttributesMessage::spec_len_ok(p),
            132u8 => LayerRetitleMessage::spec_len_ok(p),
            133u8 => true,
            134u8 => LayerDeleteMessage::spec_len_ok(p),
            135u8 => LayerVisibilityMessage::spec_len_ok(p),
            136u8 => PutImageMessage::spec_len_ok(p),
            137u8 => FillRectMessage::spec_len_ok(p),
            140u8 => true,
            141u8 => AnnotationCreateMessage::spec_len_ok(p),
            142u8 => AnnotationReshapeMessage::spec_len_ok(p),
            143u8 => AnnotationEditMessage::spec_len_ok(p),
            144u8 => 2 <= p.len() <= 2,
            145u8 => MoveRegionMessage::spec_len_ok(p),
            146u8 => PutTileMessage::spec_len_ok(p),
            147u8 => true,
            148u8 => DrawDabsClassicMessage::spec_len_ok(p),
            149u8 => DrawDabsPixelMessage::spec_len_ok(p),
            150u8 => DrawDabsPixelMessage::spec_len_ok(p),
            255u8 => UndoMessage::spec_len_ok(p),
            _ => false,
        }
    }

    /// The error returned for a rejected payload of the given message type
    pub open spec fn spec_error(message_type: u8, user_id: u8, payload_len: usize, p: Seq<u8>) -> DeserializationError {
        match message_type {
            1u8 => DisconnectMessage::spec_error(p),
            2u8 => length_error(2, p.len()),
            32u8 => JoinMessage::spec_error(p),
            34u8 => length_error(34, p.len()),
            35u8 => ChatMessage::spec_error(p),
            36u8 => length_error(36, p.len()),
            38u8 => PrivateChatMessage::spec_error(p),
            64u8 => length_error(64, p.len()),
            65u8 => LaserTrailMessage::spec_error(p),
            66u8 => MovePointerMessage::spec_error(p),
            68u8 => length_error(68, p.len()),
            69u8 => LayerACLMessage::spec_error(p),
            70u8 => length_error(70, p.len()),
            71u8 => length_error(71, p.len()),
            129u8 => CanvasResizeMessage::spec_error(p),
            130u8 => LayerCreateMessage::spec_error(p),
            131u8 => LayerAttributesMessage::spec_error(p),
            132u8 => LayerRetitleMessage::spec_error(p),
            134u8 => LayerDeleteMessage::spec_error(p),
            135u8 => LayerVisibilityMessage::spec_error(p),
            136u8 => PutImageMessage::spec_error(p),
            137u8 => FillRectMessage::spec_error(p),
            141u8 => AnnotationCreateMessage::spec_error(p),
            142u8 => AnnotationReshapeMessage::spec_error(p),
            143u8 => AnnotationEditMessage::spec_error(p),
            144u8 => length_error(144, p.len()),
            145u8 => MoveRegionMessage::spec_error(p),
            146u8 => PutTileMessage::spec_error(p),
            148u8 => DrawDabsClassicMessage::spec_error(p),
            149u8 => DrawDabsPixelMessage::spec_error(p),
            150u8 => DrawDabsPixelMessage::spec_error(p),
            255u8 => UndoMessage::spec_error(p),
            _ => DeserializationError {
                user_id,
                message_type,
                payload_len,
                error: "Unknown message type",
            },
        }
    }

    /// Whether this body holds what a payload of the given message type decodes to
    pub open spec fn spec_decodes(&self, message_type: u8, p: Seq<u8>) -> bool {
        match self {
            Body::Command(b) => message_type == 0 && b@ == ser::dec_str(p),
            Body::Disconnect(b) => message_type == 1 && b.spec_decodes(p),
            Body::Ping(b) => message_type == 2 && b == ser::dec_bool(p, 0),
            Body::Join(b) => message_type == 32 && b.spec_decodes(p),
            Body::Leave => message_type == 33 && true,
            Body::SessionOwner(b) => message_type == 34 && b@ == p,
            Body::Chat(b) => message_type == 35 && b.spec_decodes(p),
            Body::TrustedUsers(b) => message_type == 36 && b@ == p,
            Body::SoftReset => message_type == 37 && true,
            Body::PrivateChat(b) => message_type == 38 && b.spec_decodes(p),
            Body::Interval(b) => message_type == 64 && b == ser::dec_u16(p, 0),
            Body::LaserTrail(b) => message_type == 65 && b.spec_decodes(p),
            Body::MovePointer(b) => message_type == 66 && b.spec_decodes(p),
            Body::Marker(b) => message_type == 67 && b@ == ser::dec_str(p),
            Body::UserACL(b) => message_type == 68 && b@ == p,
            Body::LayerACL(b) => message_type == 69 && b.spec_decodes(p),
            Body::FeatureAccessLevels(b) => message_type == 70 && b@ == p,
            Body::DefaultLayer(b) => message_type == 71 && b == ser::dec_u16(p, 0),
            Body::Filtered(b) => message_type == 72 && b@ == p,
            Body::UndoPoint => message_type == 128 && true,
            Body::CanvasResize(b) => message_type == 129 && b.spec_decodes(p),
            Body::LayerCreate(b) => message_type == 130 && b.spec_decodes(p),
            Body::LayerAttributes(b) => message_type == 131 && b.spec_decodes(p),
            Body::LayerRetitle(b) => message_type == 132 && b.spec_decodes(p),
            Body::LayerOrder(b) => message_type == 133 && b@ == ser::dec_u16_seq(p),
            Body::LayerDelete(b) => message_type == 134 && b.spec_decodes(p),
            Body::LayerVisibility(b) => message_type == 135 && b.spec_decodes(p),
            Body::PutImage(b) => message_type == 136 && b.spec_decodes(p),
            Body::FillRect(b) => message_type == 137 && b.spec_decodes(p),
            Body::PenUp => message_type == 140 && true,
            Body::AnnotationCreate(b) => message_type == 141 && b.spec_decodes(p),
            Body::AnnotationReshape(b) => message_type == 142 && b.spec_decodes(p),
            Body::AnnotationEdit(b) => message_type == 143 && b.spec_decodes(p),
            Body::AnnotationDelete(b) => message_type == 144 && b == ser::dec_u16(p, 0),
            Body::MoveRegion(b) => message_type == 145 && b.spec_decodes(p),
            Body::PutTile(b) => message_type == 146 && b.spec_decodes(p),
            Body::CanvasBackground(b) => message_type == 147 && b@ == p,
            Body::DrawDabsClassic(b) => message_type == 148 && b.spec_decodes(p),
            Body::DrawDabsPixel(b) => message_type == 149 && b.spec_decodes(p),
            Body::DrawDabsPixelSquare(b) => message_type == 150 && b.spec_decodes(p),
            Body::Undo(b) => message_type == 255 && b.spec_decodes(p),
        }
    }

    /// Decode the payload of a message of the given type
    #[verifier::rlimit(40)]
    fn deserialize(message_type: u8, user_id: u8, payload_len: usize, buf: &[u8]) -> (r: Result<Body, DeserializationError>)
        ensures
            r is Ok <==> Body::spec_ok(message_type, buf@),
            r matches Ok(b) ==> b.spec_decodes(message_type, buf@),
            r matches Err(e) ==> e == Body::spec_error(message_type, user_id, payload_len, buf@),
    {
        assert(buf@.subrange(0, buf@.len() as int) =~= buf@);
        match message_type {
            0 => {
                Ok(Body::Command(read_str(buf, 0, buf.len())))
            },
            1 => {
                match DisconnectMessage::deserialize(buf) {
                    Ok(m) => Ok(Body::Disconnect(m)),
                    Err(e) => Err(e),
                }
            },
            2 => {
                if let Err(e) = check_len(buf, 1, 1, 2) {
                    return Err(e);
                }
                Ok(Body::Ping(read_bool(buf, 0)))
            },
            32 => {
                match JoinMessage::deserialize(buf) {
                    Ok(m) => Ok(Body::Join(m)),
                    Err(e) => Err(e),
                }
            },
            33 => {
                Ok(Body::Leave)
            },
            34 => {
                if let Err(e) = check_len(buf, 0, 255, 34) {
                    return Err(e);
                }
                Ok(Body::SessionOwner(read_remaining_bytes(buf, 0)))
            },
            35 => {
                match ChatMessage::deserialize(buf) {
                    Ok(m) => Ok(Body::Chat(m)),
                    Err(e) => Err(e),
                }
            },
            36 => {
                if let Err(e) = check_len(buf, 0, 255, 36) {
                    return Err(e);
                }
                Ok(Body::TrustedUsers(read_remaining_bytes(buf, 0)))
            },
            37 => {
                Ok(Body::SoftReset)
            },
            38 => {
                match PrivateChatMessage::deserialize(buf) {
                    Ok(m) => Ok(Body::PrivateChat(m)),
                    Err(e) => Err(e),
                }
            },
            64 => {
                if let Err(e) = check_len(buf, 2, 2, 64) {
                    return Err(e);
                }
                Ok(Body::Interval(read_u16(buf, 0)))
            },
            65 => {
                match LaserTrailMessage::deserialize(buf) {
                    Ok(m) => Ok(Body::LaserTrail(m)),
                    Err(e) => Err(e),
                }
            },
            66 => {
                match MovePointerMessage::deserialize(buf) {
                    Ok(m) => Ok(Body::MovePointer(m)),
                    Err(e) => Err(e),
                }
            },
            67 => {
                Ok(Body::Marker(read_str(buf, 0, buf.len())))
            },
            68 => {
                if let Err(e) = check_len(buf, 0, 255, 68) {
                    return Err(e);
                }
                Ok(Body::UserACL(read_remaining_bytes(buf, 0)))
            },
            69 => {
                match LayerACLMessage::deserialize(buf) {
                    Ok(m) => Ok(Body::LayerACL(m)),
                    Err(e) => Err(e),
                }
            },
            70 => {
                if let Err(e) = check_len(buf, 9, 9, 70) {
                    return Err(e);
                }
                Ok(Body::FeatureAccessLevels(read_remaining_bytes(buf, 0)))
            },
            71 => {
                if let Err(e) = check_len(buf, 2, 2, 71) {
                    return Err(e);
                }
                Ok(Body::DefaultLayer(read_u16(buf, 0)))
            },
            72 => {
                Ok(Body::Filtered(read_remaining_bytes(buf, 0)))
            },
            128 => {
                Ok(Body::UndoPoint)
            },
            129 => {
                match CanvasResizeMessage::deserialize(buf) {
                    Ok(m) => Ok(Body::CanvasResize(m)),
                    Err(e) => Err(e),
                }
            },
            130 => {
                match LayerCreateMessage::deserialize(buf) {
                    Ok(m) => Ok(Body::LayerCreate(m)),
                    Err(e) => Err(e),
                }
            },
            131 => {
                match LayerAttributesMessage::deserialize(buf) {
                    Ok(m) => Ok(Body::LayerAttributes(m)),
                    Err(e) => Err(e),
                }
            },
            132 => {
                match LayerRetitleMessage::deserialize(buf) {
                    Ok(m) => Ok(Body::LayerRetitle(m)),
                    Err(e) => Err(e),
                }
            },
            133 => {
                Ok(Body::LayerOrder(read_remaining_u16s(buf, 0)))
            },
            134 => {
                match LayerDeleteMessage::deserialize(buf) {
                    Ok(m) => Ok(Body::LayerDelete(m)),
                    Err(e) => Err(e),
                }
            },
            135 => {
                match LayerVisibilityMessage::deserialize(buf) {
                    Ok(m) => Ok(Body::LayerVisibility(m)),
                    Err(e) => Err(e),
                }
            },
            136 => {
                match PutImageMessage::deserialize(buf) {
                    Ok(m) => Ok(Body::PutImage(m)),
                    Err(e) => Err(e),
                }
            },
            137 => {
                match FillRectMessage::deserialize(buf) {
                    Ok(m) => Ok(Body::FillRect(m)),
                    Err(e) => Err(e),
                }
            },
            140 => {
                Ok(Body::PenUp)
            },
            141 => {
                match AnnotationCreateMessage::deserialize(buf) {
                    Ok(m) => Ok(Body::AnnotationCreate(m)),
                    Err(e) => Err(e),
                }
            },
            142 => {
                match AnnotationReshapeMessage::deserialize(buf) {
                    Ok(m) => Ok(Body::AnnotationReshape(m)),
                    Err(e) => Err(e),
                }
            },
            143 => {
                match AnnotationEditMessage::deserialize(buf) {
                    Ok(m) => Ok(Body::AnnotationEdit(m)),
                    Err(e) => Err(e),
                }
            },
            144 => {
                if let Err(e) = check_len(buf, 2, 2, 144) {
                    return Err(e);
                }
                Ok(Body::AnnotationDelete(read_u16(buf, 0)))
            },
            145 => {
                match MoveRegionMessage::deserialize(buf) {
                    Ok(m) => Ok(Body::MoveRegion(m)),
                    Err(e) => Err(e),
                }
            },
            146 => {
                match PutTileMessage::deserialize(buf) {
                    Ok(m) => Ok(Body::PutTile(m)),
                    Err(e) => Err(e),
                }
            },
            147 => {
                Ok(Body::CanvasBackground(read_remaining_bytes(buf, 0)))
            },
            148 => {
                match DrawDabsClassicMessage::deserialize(buf) {
                    Ok(m) => Ok(Body::DrawDabsClassic(m)),
                    Err(e) => Err(e),
                }
            },
            149 => {
                match DrawDabsPixelMessage::deserialize(buf) {
                    Ok(m) => Ok(Body::DrawDabsPixel(m)),
                    Err(e) => Err(e),
                }
            },
            150 => {
                match DrawDabsPixelMessage::deserialize(buf) {
                    Ok(m) => Ok(Body::DrawDabsPixelSquare(m)),
                    Err(e) => Err(e),
                }
            },
            255 => {
                match UndoMessage::deserialize(buf) {
                    Ok(m) => Ok(Body::Undo(m)),
                    Err(e) => Err(e),
                }
            },
            _ => Err(
                DeserializationError {
                    user_id,
                    message_type,
                    payload_len,
                    error: "Unknown message type",
                },
            ),
        }
    }

    /// A valid body is read back from its own payload
    #[verifier::spinoff_prover]
    #[verifier::rlimit(80)]
    pub proof fn lemma_roundtrip(&self)
        requires
            self.spec_valid(),
            !(self is DrawDabsPixelSquare),
        ensures
            Body::spec_ok(self.spec_type(), self.spec_payload()),
            self.spec_decodes(self.spec_type(), self.spec_payload()),
    {
        match self {
            Body::Command(b) => ser::lemma_str_roundtrip(b@),
            Body::Disconnect(b) => b.lemma_roundtrip(),
            Body::Ping(b) => assert(ser::dec_bool(ser::enc_bool(*b), 0) == *b),
            Body::Join(b) => b.lemma_roundtrip(),
            Body::Leave => {},
            Body::SessionOwner(_) => {},
            Body::Chat(b) => b.lemma_roundtrip(),
            Body::TrustedUsers(_) => {},
            Body::SoftReset => {},
            Body::PrivateChat(b) => b.lemma_roundtrip(),
            Body::Interval(b) => ser::lemma_u16_roundtrip(*b),
            Body::LaserTrail(b) => b.lemma_roundtrip(),
            Body::MovePointer(b) => b.lemma_roundtrip(),
            Body::Marker(b) => ser::lemma_str_roundtrip(b@),
            Body::UserACL(_) => {},
            Body::LayerACL(b) => b.lemma_roundtrip(),
            Body::FeatureAccessLevels(_) => {},
            Body::DefaultLayer(b) => ser::lemma_u16_roundtrip(*b),
            Body::Filtered(_) => {},
            Body::UndoPoint => {},
            Body::CanvasResize(b) => b.lemma_roundtrip(),
            Body::LayerCreate(b) => b.lemma_roundtrip(),
            Body::LayerAttributes(b) => b.lemma_roundtrip(),
            Body::LayerRetitle(b) => b.lemma_roundtrip(),
            Body::LayerOrder(b) => ser::lemma_u16_seq_roundtrip(b@),
            Body::LayerDelete(b) => b.lemma_roundtrip(),
            Body::LayerVisibility(b) => b.lemma_roundtrip(),
            Body::PutImage(b) => b.lemma_roundtrip(),
            Body::FillRect(b) => b.lemma_roundtrip(),
            Body::PenUp => {},
            Body::AnnotationCreate(b) => b.lemma_roundtrip(),
            Body::AnnotationReshape(b) => b.lemma_roundtrip(),
            Body::AnnotationEdit(b) => b.lemma_roundtrip(),
            Body::AnnotationDelete(b) => ser::lemma_u16_roundtrip(*b),
            Body::MoveRegion(b) => b.lemma_roundtrip(),
            Body::PutTile(b) => b.lemma_roundtrip(),
            Body::CanvasBackground(_) => {},
            Body::DrawDabsClassic(b) => b.lemma_roundtrip(),
            Body::DrawDabsPixel(b) => b.lemma_roundtrip(),
            Body::DrawDabsPixelSquare(b) => b.lemma_roundtrip(),
            Body::Undo(b) => b.lemma_roundtrip(),
        }
    }

    /// Whether a payload of the given message type is decoded without loss:
    /// booleans are 0 or 1, strings are valid UTF-8, lists of 16 bit integers
    /// have an even length and bodies without content have an empty payload.
    /// Square pixel dab payloads are never: they are encoded with another type.
    pub open spec fn spec_canonical(message_type: u8, p: Seq<u8>) -> bool {
        match message_type {
            0u8 => vstd::utf8::valid_utf8(p),
            1u8 => DisconnectMessage::spec_canonical(p),
            2u8 => p[0] <= 1,
            32u8 => JoinMessage::spec_canonical(p),
            33u8 => p.len() == 0,
            35u8 => ChatMessage::spec_canonical(p),
            37u8 => p.len() == 0,
            38u8 => PrivateChatMessage::spec_canonical(p),
            65u8 => LaserTrailMessage::spec_canonical(p),
            66u8 => MovePointerMessage::spec_canonical(p),
            67u8 => vstd::utf8::valid_utf8(p),
            69u8 => LayerACLMessage::spec_canonical(p),
            128u8 => p.len() == 0,
            129u8 => CanvasResizeMessage::spec_canonical(p),
            130u8 => LayerCreateMessage::spec_canonical(p),
            131u8 => LayerAttributesMessage::spec_canonical(p),
            132u8 => LayerRetitleMessage::spec_canonical(p),
            133u8 => p.len() % 2 == 0,
            134u8 => LayerDeleteMessage::spec_canonical(p),
            135u8 => LayerVisibilityMessage::spec_canonical(p),
            136u8 => PutImageMessage::spec_canonical(p),
            137u8 => FillRectMessage::spec_canonical(p),
            140u8 => p.len() == 0,
            141u8 => AnnotationCreateMessage::spec_canonical(p),
            142u8 => AnnotationReshapeMessage::spec_canonical(p),
            143u8 => AnnotationEditMessage::spec_canonical(p),
            145u8 => MoveRegionMessage::spec_canonical(p),
            146u8 => PutTileMessage::spec_canonical(p),
            148u8 => DrawDabsClassicMessage::spec_canonical(p),
            149u8 => DrawDabsPixelMessage::spec_canonical(p),
            150u8 => false,
            255u8 => UndoMessage::spec_canonical(p),
            _ => true,
        }
    }

    /// A payload that is decoded without loss is the encoding of what it decodes to
    #[verifier::spinoff_prover]
    #[verifier::rlimit(80)]
    pub proof fn lemma_reencode(&self, message_type: u8, p: Seq<u8>)
        requires
            Body::spec_ok(message_type, p),
            self.spec_decodes(message_type, p),
            Body::spec_canonical(message_type, p),
        ensures
            self.spec_type() == message_type,
            self.spec_payload() == p,
    {
        match self {
            Body::Command(_) => ser::lemma_str_reencode(p),
            Body::Disconnect(b) => b.lemma_reencode(p),
            Body::Ping(_) => {
                ser::lemma_bool_reencode(p, 0);
                assert(p =~= p.subrange(0, 1));
            },
            Body::Join(b) => b.lemma_reencode(p),
            Body::Leave => assert(p =~= Seq::<u8>::empty()),
            Body::SessionOwner(_) => {},
            Body::Chat(b) => b.lemma_reencode(p),
            Body::TrustedUsers(_) => {},
            Body::SoftReset => assert(p =~= Seq::<u8>::empty()),
            Body::PrivateChat(b) => b.lemma_reencode(p),
            Body::Interval(_) => {
                ser::lemma_u16_reencode(p, 0);
                assert(p =~= p.subrange(0, 2));
            },
            Body::LaserTrail(b) => b.lemma_reencode(p),
            Body::MovePointer(b) => b.lemma_reencode(p),
            Body::Marker(_) => ser::lemma_str_reencode(p),
            Body::UserACL(_) => {},
            Body::LayerACL(b) => b.lemma_reencode(p),
            Body::FeatureAccessLevels(_) => {},
            Body::DefaultLayer(_) => {
                ser::lemma_u16_reencode(p, 0);
                assert(p =~= p.subrange(0, 2));
            },
            Body::Filtered(_) => {},
            Body::UndoPoint => assert(p =~= Seq::<u8>::empty()),
            Body::CanvasResize(b) => b.lemma_reencode(p),
            Body::LayerCreate(b) => b.lemma_reencode(p),
            Body::LayerAttributes(b) => b.lemma_reencode(p),
            Body::LayerRetitle(b) => b.lemma_reencode(p),
            Body::LayerOrder(_) => ser::lemma_u16_seq_reencode(p),
            Body::LayerDelete(b) => b.lemma_reencode(p),
            Body::LayerVisibility(b) => b.lemma_reencode(p),
            Body::PutImage(b) => b.lemma_reencode(p),
            Body::FillRect(b) => b.lemma_reencode(p),
            Body::PenUp => assert(p =~= Seq::<u8>::empty()),
            Body::AnnotationCreate(b) => b.lemma_reencode(p),
            Body::AnnotationReshape(b) => b.lemma_reencode(p),
            Body::AnnotationEdit(b) => b.lemma_reencode(p),
            Body::AnnotationDelete(_) => {
                ser::lemma_u16_reencode(p, 0);
                assert(p =~= p.subrange(0, 2));
            },
            Body::MoveRegion(b) => b.lemma_reencode(p),
            Body::PutTile(b) => b.lemma_reencode(p),
            Body::CanvasBackground(_) => {},
            Body::DrawDabsClassic(b) => b.lemma_reencode(p),
            Body::DrawDabsPixel(b) => b.lemma_reencode(p),
            Body::DrawDabsPixelSquare(b) => b.lemma_reencode(p),
            Body::Undo(b) => b.lemma_reencode(p),
        }
    }
}

#[derive(Debug, PartialEq)]
pub struct Message {
    pub user_id: u8,
    pub body: Body,
}

impl Message {
    /// Whether a buffer starts with a complete message header and holds the
    /// whole payload announced in it
    pub open spec fn spec_header_ok(b: Seq<u8>) -> bool {
        &&& b.len() >= 4
        &&& b.len() >= 4 + ser::dec_u16(b, 0)
    }

    /// The payload of a message buffer: everything after the header
    pub open spec fn spec_payload_of(b: Seq<u8>) -> Seq<u8> {
        b.subrange(4, b.len() as int)
    }

    /// Whether a buffer is decoded into a message
    pub open spec fn spec_ok(b: Seq<u8>) -> bool {
        &&& Self::spec_header_ok(b)
        &&& Body::spec_ok(b[2], Self::spec_payload_of(b))
    }

    /// The error returned for a buffer that is not decoded
    pub open spec fn spec_error(b: Seq<u8>) -> DeserializationError {
        if b.len() < 4 {
            DeserializationError {
                user_id: 0,
                message_type: 0,
                payload_len: 0,
                error: "Message header too short",
            }
        } else if b.len() < 4 + ser::dec_u16(b, 0) {
            DeserializationError {
                user_id: b[3],
                message_type: b[2],
                payload_len: ser::dec_u16(b, 0) as usize,
                error: "Message truncated",
            }
        } else {
            Body::spec_error(b[2], b[3], ser::dec_u16(b, 0) as usize, Self::spec_payload_of(b))
        }
    }

    /// Whether this message is what the buffer decodes to
    pub open spec fn spec_decodes(&self, b: Seq<u8>) -> bool {
        &&& self.user_id == b[3]
        &&& self.body.spec_decodes(b[2], Self::spec_payload_of(b))
    }

    /// The bytes this message is encoded as
    pub open spec fn spec_bytes(&self) -> Seq<u8> {
        ser::frame_declared(
            self.body.spec_type(),
            self.user_id,
            self.body.spec_declared_len(),
            self.body.spec_payload(),
        )
    }

    /// Whether this message can be encoded and read back
    pub open spec fn spec_valid(&self) -> bool {
        self.body.spec_valid()
    }

    /// Decode a message from a buffer that starts with the message header.
    ///
    /// Everything after the four header bytes is taken as the payload.
    pub fn deserialize(buf: &[u8]) -> (r: Result<Message, DeserializationError>)
        ensures
            r is Ok <==> Self::spec_ok(buf@),
            r matches Ok(m) ==> m.spec_decodes(buf@),
            r matches Err(e) ==> e == Self::spec_error(buf@),
    {
        if buf.len() < 4 {
            return Err(
                DeserializationError {
                    user_id: 0,
                    message_type: 0,
                    payload_len: 0,
                    error: "Message header too short",
                },
            );
        }
        let payload_len = read_u16(buf, 0) as usize;
        let message_type = buf[2];
        let user_id = buf[3];

        if buf.len() < 4 + payload_len {
            return Err(
                DeserializationError {
                    user_id,
                    message_type,
                    payload_len,
                    error: "Message truncated",
                },
            );
        }

        let payload = vstd::slice::slice_subrange(buf, 4, buf.len());
        match Body::deserialize(message_type, user_id, payload_len, payload) {
            Ok(body) => Ok(Message { user_id, body }),
            Err(e) => Err(e),
        }
    }

    /// Encode this message
    pub fn serialize(&self) -> (r: Vec<u8>)
        ensures
            r@ == self.spec_bytes(),
    {
        let user_id = self.user_id;
        match &self.body {
            Body::Command(b) => frame_message(0, user_id, b.as_str().as_bytes()),
            Body::Disconnect(b) => b.serialize(user_id),
            Body::Ping(b) => {
                let mut w: Vec<u8> = Vec::new();
                push_bool(&mut w, *b);
                frame_message(2, user_id, w.as_slice())
            },
            Body::Join(b) => b.serialize(user_id),
            Body::Leave => {
                let mut w: Vec<u8> = Vec::new();
                assert(w@ =~= Seq::<u8>::empty());
                frame_message(33, user_id, w.as_slice())
            },
            Body::SessionOwner(b) => frame_message(34, user_id, b.as_slice()),
            Body::Chat(b) => b.serialize(user_id),
            Body::TrustedUsers(b) => frame_message(36, user_id, b.as_slice()),
            Body::SoftReset => {
                let mut w: Vec<u8> = Vec::new();
                assert(w@ =~= Seq::<u8>::empty());
                frame_message(37, user_id, w.as_slice())
            },
            Body::PrivateChat(b) => b.serialize(user_id),
            Body::Interval(b) => {
                let mut w: Vec<u8> = Vec::new();
                push_u16(&mut w, *b);
                frame_message(64, user_id, w.as_slice())
            },
            Body::LaserTrail(b) => b.serialize(user_id),
            Body::MovePointer(b) => b.serialize(user_id),
            Body::Marker(b) => frame_message(67, user_id, b.as_str().as_bytes()),
            Body::UserACL(b) => frame_message(68, user_id, b.as_slice()),
            Body::LayerACL(b) => b.serialize(user_id),
            Body::FeatureAccessLevels(b) => frame_message(70, user_id, b.as_slice()),
            Body::DefaultLayer(b) => {
                let mut w: Vec<u8> = Vec::new();
                push_u16(&mut w, *b);
                frame_message(71, user_id, w.as_slice())
            },
            Body::Filtered(b) => frame_message(72, user_id, b.as_slice()),
            Body::UndoPoint => {
                let mut w: Vec<u8> = Vec::new();
                assert(w@ =~= Seq::<u8>::empty());
                frame_message(128, user_id, w.as_slice())
            },
            Body::CanvasResize(b) => b.serialize(user_id),
            Body::LayerCreate(b) => b.serialize(user_id),
            Body::LayerAttributes(b) => b.serialize(user_id),
            Body::LayerRetitle(b) => b.serialize(user_id),
            Body::LayerOrder(b) => {
                let mut w: Vec<u8> = Vec::new();
                push_u16s(&mut w, b.as_slice());
                frame_message(133, user_id, w.as_slice())
            },
            Body::LayerDelete(b) => b.serialize(user_id),
            Body::LayerVisibility(b) => b.serialize(user_id),
            Body::PutImage(b) => b.serialize(user_id),
            Body::FillRect(b) => b.serialize(user_id),
            Body::PenUp => {
                let mut w: Vec<u8> = Vec::new();
                assert(w@ =~= Seq::<u8>::empty());
                frame_message(140, user_id, w.as_slice())
            },
            Body::AnnotationCreate(b) => b.serialize(user_id),
            Body::AnnotationReshape(b) => b.serialize(user_id),
            Body::AnnotationEdit(b) => b.serialize(user_id),
            Body::AnnotationDelete(b) => {
                let mut w: Vec<u8> = Vec::new();
                push_u16(&mut w, *b);
                frame_message(144, user_id, w.as_slice())
            },
            Body::MoveRegion(b) => b.serialize(user_id),
            Body::PutTile(b) => b.serialize(user_id),
            Body::CanvasBackground(b) => frame_message(147, user_id, b.as_slice()),
            Body::DrawDabsClassic(b) => b.serialize(user_id),
            Body::DrawDabsPixel(b) => b.serialize(user_id),
            Body::DrawDabsPixelSquare(b) => b.serialize(user_id),
            Body::Undo(b) => b.serialize(user_id),
        }
    }

    /// A valid message is read back from its own encoding. (A square pixel
    /// dab message is encoded with the message type of round pixel dabs,
    /// so it is read back as one of those.)
    pub proof fn lemma_roundtrip(&self)
        requires
            self.spec_valid(),
            !(self.body is DrawDabsPixelSquare),
        ensures
            Self::spec_ok(self.spec_bytes()),
            self.spec_decodes(self.spec_bytes()),
    {
        let p = self.body.spec_payload();
        let b = self.spec_bytes();
        self.body.lemma_roundtrip();
        assert(p.len() <= 65535) by {
            match &self.body {
                Body::DrawDabsClassic(m) => {},
                _ => {},
            }
        }
        let d = self.body.spec_declared_len();
        assert(b.subrange(0, 2) =~= ser::enc_u16(d));
        ser::lemma_u16_at(b, 0, d);
        assert(d <= p.len());
        assert(Self::spec_payload_of(b) =~= p);
    }

    /// Whether a buffer holds exactly one message that is decoded without
    /// loss, with the length that encoding declares in its header (one less
    /// than the payload's for a join message)
    pub open spec fn spec_canonical(b: Seq<u8>) -> bool {
        &&& b.len() == 4 + ser::dec_u16(b, 0) + if b[2] == 32 {
            1int
        } else {
            0
        }
        &&& Body::spec_canonical(b[2], Self::spec_payload_of(b))
    }

    /// Encoding a message decoded without loss gives back the bytes it was decoded from
    pub proof fn lemma_reencode(&self, b: Seq<u8>)
        requires
            Self::spec_ok(b),
            self.spec_decodes(b),
            Self::spec_canonical(b),
        ensures
            self.spec_bytes() == b,
    {
        let p = Self::spec_payload_of(b);
        self.body.lemma_reencode(b[2], p);
        ser::lemma_u16_reencode(b, 0);
        assert(b =~= b.subrange(0, 2) + seq![b[2], b[3]] + p);
    }

    /// The payload of a valid message fits the 16 bit length field, and the
    /// header declares its length (one less for a join message)
    pub proof fn lemma_payload_fits(&self)
        requires
            self.spec_valid(),
        ensures
            self.body.spec_payload().len() <= 65535,
            !(self.body is Join) ==> self.body.spec_declared_len() == self.body.spec_payload().len(),
            self.body is Join ==> self.body.spec_declared_len() + 1 == self.body.spec_payload().len(),
            self.spec_bytes().len() == 4 + self.body.spec_payload().len(),
    {
        match &self.body {
            Body::DrawDabsClassic(m) => {},
            Body::DrawDabsPixel(m) => {},
            Body::DrawDabsPixelSquare(m) => {},
            _ => {},
        }
    }
}

} // verus!
