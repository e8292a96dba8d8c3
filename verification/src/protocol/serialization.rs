//! Binary encoding of message fields.
//!
//! All multi-byte integers are big endian. Strings are UTF-8 encoded;
//! when read back, invalid UTF-8 sequences are replaced as
//! `String::from_utf8_lossy` does.
use vstd::prelude::*;
use vstd::utf8::*;

verus! {

broadcast use vstd::utf8::group_utf8_lib;

/// Error returned when a message cannot be decoded
#[derive(Debug, PartialEq, Eq)]
pub struct DeserializationError {
    pub user_id: u8,
    pub message_type: u8,
    pub payload_len: usize,
    pub error: &'static str,
}

// ---------------------------------------------------------------------------
// Field encodings
// ---------------------------------------------------------------------------

pub open spec fn enc_u8(x: u8) -> Seq<u8> {
    seq![x]
}

pub open spec fn enc_bool(x: bool) -> Seq<u8> {
    seq![if x { 1u8 } else { 0u8 }]
}

pub open spec fn enc_u16(x: u16) -> Seq<u8> {
    seq![(x / 256) as u8, (x % 256) as u8]
}

pub open spec fn enc_u32(x: u32) -> Seq<u8> {
    seq![
        (x / 0x100_0000) as u8,
        ((x / 0x1_0000) % 256) as u8,
        ((x / 256) % 256) as u8,
        (x % 256) as u8,
    ]
}

/// Two's complement bit pattern of a signed 32 bit integer
pub open spec fn i32_bits(x: i32) -> u32 {
    if x >= 0 {
        x as u32
    } else {
        (x + 0x1_0000_0000) as u32
    }
}

/// Signed 32 bit integer with the given two's complement bit pattern
pub open spec fn i32_from_bits(u: u32) -> i32 {
    if u < 0x8000_0000 {
        u as i32
    } else {
        (u - 0x1_0000_0000) as i32
    }
}

pub open spec fn enc_i32(x: i32) -> Seq<u8> {
    enc_u32(i32_bits(x))
}

pub open spec fn i8_bits(x: i8) -> u8 {
    if x >= 0 {
        x as u8
    } else {
        (x + 256) as u8
    }
}

pub open spec fn i8_from_bits(u: u8) -> i8 {
    if u < 128 {
        u as i8
    } else {
        (u - 256) as i8
    }
}

pub open spec fn enc_i8(x: i8) -> Seq<u8> {
    seq![i8_bits(x)]
}

/// UTF-8 bytes of a string
pub open spec fn enc_str(s: Seq<char>) -> Seq<u8> {
    encode_utf8(s)
}

/// Concatenated big endian encoding of a list of 16 bit integers
pub open spec fn enc_u16_seq(v: Seq<u16>) -> Seq<u8>
    decreases v.len(),
{
    if v.len() == 0 {
        Seq::empty()
    } else {
        enc_u16_seq(v.drop_last()) + enc_u16(v.last())
    }
}

// ---------------------------------------------------------------------------
// Field decodings (reading at an offset of a buffer)
// ---------------------------------------------------------------------------

pub open spec fn dec_bool(s: Seq<u8>, i: int) -> bool {
    s[i] != 0
}

pub open spec fn dec_u16(s: Seq<u8>, i: int) -> u16 {
    (s[i] * 256 + s[i + 1]) as u16
}

pub open spec fn dec_u32(s: Seq<u8>, i: int) -> u32 {
    (s[i] * 0x100_0000 + s[i + 1] * 0x1_0000 + s[i + 2] * 256 + s[i + 3]) as u32
}

pub open spec fn dec_i32(s: Seq<u8>, i: int) -> i32 {
    i32_from_bits(dec_u32(s, i))
}

pub open spec fn dec_i8(s: Seq<u8>, i: int) -> i8 {
    i8_from_bits(s[i])
}

/// What `String::from_utf8_lossy` makes of a byte sequence that is not valid UTF-8
pub uninterp spec fn utf8_lossy_invalid(bytes: Seq<u8>) -> Seq<char>;

/// Characters of a string read from the given bytes: valid UTF-8 is decoded
/// as such, invalid sequences are replaced.
pub open spec fn dec_str(bytes: Seq<u8>) -> Seq<char> {
    if valid_utf8(bytes) {
        decode_utf8(bytes)
    } else {
        utf8_lossy_invalid(bytes)
    }
}

/// A list of 16 bit integers read from a buffer. A trailing odd byte is ignored.
pub open spec fn dec_u16_seq(s: Seq<u8>) -> Seq<u16> {
    Seq::new(s.len() / 2, |k: int| dec_u16(s, 2 * k))
}

// ---------------------------------------------------------------------------
// Round trip lemmas for single fields
// ---------------------------------------------------------------------------

pub proof fn lemma_u16_roundtrip(x: u16)
    ensures
        dec_u16(enc_u16(x), 0) == x,
{
}

pub proof fn lemma_u32_roundtrip(x: u32)
    ensures
        dec_u32(enc_u32(x), 0) == x,
{
    let s = enc_u32(x);
    assert(x == (x / 0x100_0000) * 0x100_0000 + ((x / 0x1_0000) % 256) * 0x1_0000 + ((x / 256)
        % 256) * 256 + x % 256) by (nonlinear_arith);
}

pub proof fn lemma_i32_roundtrip(x: i32)
    ensures
        dec_i32(enc_i32(x), 0) == x,
{
    lemma_u32_roundtrip(i32_bits(x));
}

pub proof fn lemma_i8_roundtrip(x: i8)
    ensures
        dec_i8(enc_i8(x), 0) == x,
{
}

pub proof fn lemma_str_roundtrip(s: Seq<char>)
    ensures
        dec_str(enc_str(s)) == s,
{
}

pub proof fn lemma_u16_seq_len(v: Seq<u16>)
    ensures
        enc_u16_seq(v).len() == 2 * v.len(),
    decreases v.len(),
{
    if v.len() > 0 {
        lemma_u16_seq_len(v.drop_last());
    }
}

pub proof fn lemma_u16_seq_roundtrip(v: Seq<u16>)
    ensures
        dec_u16_seq(enc_u16_seq(v)) == v,
    decreases v.len(),
{
    lemma_u16_seq_len(v);
    if v.len() > 0 {
        let init = v.drop_last();
        lemma_u16_seq_roundtrip(init);
        lemma_u16_seq_len(init);
        let s = enc_u16_seq(v);
        let si = enc_u16_seq(init);
        assert(s == si + enc_u16(v.last()));
        assert forall|k: int| 0 <= k < v.len() implies #[trigger] dec_u16(s, 2 * k) == v[k] by {
            if k < init.len() {
                assert(s[2 * k] == si[2 * k]);
                assert(s[2 * k + 1] == si[2 * k + 1]);
                assert(dec_u16(si, 2 * k) == dec_u16_seq(si)[k]);
            } else {
                lemma_u16_roundtrip(v.last());
            }
        }
        assert(dec_u16_seq(s) =~= v);
    }
}

// ---------------------------------------------------------------------------
// Reading
// ---------------------------------------------------------------------------

pub fn read_u8(buf: &[u8], pos: usize) -> (r: u8)
    requires
        pos < buf@.len(),
    ensures
        r == buf@[pos as int],
{
    buf[pos]
}

pub fn read_bool(buf: &[u8], pos: usize) -> (r: bool)
    requires
        pos < buf@.len(),
    ensures
        r == dec_bool(buf@, pos as int),
{
    buf[pos] != 0
}

pub fn read_i8(buf: &[u8], pos: usize) -> (r: i8)
    requires
        pos < buf@.len(),
    ensures
        r == dec_i8(buf@, pos as int),
{
    let b = buf[pos];
    if b < 128 {
        b as i8
    } else {
        (b as i16 - 256) as i8
    }
}

pub fn read_u16(buf: &[u8], pos: usize) -> (r: u16)
    requires
        pos + 2 <= buf@.len(),
    ensures
        r == dec_u16(buf@, pos as int),
{
    buf[pos] as u16 * 256 + buf[pos + 1] as u16
}

pub fn read_u32(buf: &[u8], pos: usize) -> (r: u32)
    requires
        pos + 4 <= buf@.len(),
    ensures
        r == dec_u32(buf@, pos as int),
{
    buf[pos] as u32 * 0x100_0000 + buf[pos + 1] as u32 * 0x1_0000 + buf[pos + 2] as u32 * 256
        + buf[pos + 3] as u32
}

pub fn read_i32(buf: &[u8], pos: usize) -> (r: i32)
    requires
        pos + 4 <= buf@.len(),
    ensures
        r == dec_i32(buf@, pos as int),
{
    let u = read_u32(buf, pos);
    if u < 0x8000_0000 {
        u as i32
    } else {
        (u as i64 - 0x1_0000_0000) as i32
    }
}

/// Copy the bytes from `start` to the end of the buffer
pub fn read_remaining_bytes(buf: &[u8], start: usize) -> (r: Vec<u8>)
    requires
        start <= buf@.len(),
    ensures
        r@ == buf@.subrange(start as int, buf@.len() as int),
{
    let mut out: Vec<u8> = Vec::with_capacity(buf.len() - start);
    let mut i = start;
    while i < buf.len()
        invariant
            start <= i <= buf@.len(),
            out@ == buf@.subrange(start as int, i as int),
        decreases buf@.len() - i,
    {
        out.push(buf[i]);
        i += 1;
        assert(out@ =~= buf@.subrange(start as int, i as int));
    }
    out
}

/// `String::from_utf8_lossy`: decodes UTF-8, replacing invalid sequences
/// with U+FFFD. The contract claims that valid UTF-8 is decoded exactly;
/// what invalid input turns into is only named.
#[verifier::external_body]
fn string_from_utf8_lossy(bytes: &[u8]) -> (s: String)
    ensures
        valid_utf8(bytes@) ==> s@ == decode_utf8(bytes@),
        !valid_utf8(bytes@) ==> s@ == utf8_lossy_invalid(bytes@),
{
    String::from_utf8_lossy(bytes).into_owned()
}

/// Read a string from the bytes `start..end`
pub fn read_str(buf: &[u8], start: usize, end: usize) -> (r: String)
    requires
        start <= end <= buf@.len(),
    ensures
        r@ == dec_str(buf@.subrange(start as int, end as int)),
{
    let part = vstd::slice::slice_subrange(buf, start, end);
    string_from_utf8_lossy(part)
}

/// Read a list of 16 bit integers from `start` to the end of the buffer
pub fn read_remaining_u16s(buf: &[u8], start: usize) -> (r: Vec<u16>)
    requires
        start <= buf@.len(),
    ensures
        r@ == dec_u16_seq(buf@.subrange(start as int, buf@.len() as int)),
{
    let ghost s = buf@.subrange(start as int, buf@.len() as int);
    let blen = buf.len();
    let n = (blen - start) / 2;
    let mut out: Vec<u16> = Vec::with_capacity(n);
    let mut k: usize = 0;
    while k < n
        invariant
            n == s.len() / 2,
            s == buf@.subrange(start as int, buf@.len() as int),
            start <= buf@.len(),
            k <= n,
            s.len() == buf@.len() - start,
            blen == buf@.len(),
            out@ =~= Seq::new(k as nat, |j: int| dec_u16(s, 2 * j)),
        decreases n - k,
    {
        assert(2 * k + 2 <= s.len());
        let v = read_u16(buf, start + 2 * k);
        assert(v == dec_u16(s, 2 * k));
        out.push(v);
        k += 1;
        assert(out@ =~= Seq::new(k as nat, |j: int| dec_u16(s, 2 * j)));
    }
    out
}

// ---------------------------------------------------------------------------
// Writing
// ---------------------------------------------------------------------------

pub fn push_u8(out: &mut Vec<u8>, x: u8)
    ensures
        final(out)@ == old(out)@ + enc_u8(x),
{
    out.push(x);
    assert(out@ =~= old(out)@ + enc_u8(x));
}

pub fn push_bool(out: &mut Vec<u8>, x: bool)
    ensures
        final(out)@ == old(out)@ + enc_bool(x),
{
    out.push(if x { 1u8 } else { 0u8 });
    assert(out@ =~= old(out)@ + enc_bool(x));
}

pub fn push_i8(out: &mut Vec<u8>, x: i8)
    ensures
        final(out)@ == old(out)@ + enc_i8(x),
{
    let b: u8 = if x >= 0 { x as u8 } else { (x as i16 + 256) as u8 };
    out.push(b);
    assert(out@ =~= old(out)@ + enc_i8(x));
}

pub fn push_u16(out: &mut Vec<u8>, x: u16)
    ensures
        final(out)@ == old(out)@ + enc_u16(x),
{
    out.push((x / 256) as u8);
    out.push((x % 256) as u8);
    assert(out@ =~= old(out)@ + enc_u16(x));
}

pub fn push_u32(out: &mut Vec<u8>, x: u32)
    ensures
        final(out)@ == old(out)@ + enc_u32(x),
{
    out.push((x / 0x100_0000) as u8);
    out.push(((x / 0x1_0000) % 256) as u8);
    out.push(((x / 256) % 256) as u8);
    out.push((x % 256) as u8);
    assert(out@ =~= old(out)@ + enc_u32(x));
}

pub fn push_i32(out: &mut Vec<u8>, x: i32)
    ensures
        final(out)@ == old(out)@ + enc_i32(x),
{
    let u: u32 = if x >= 0 { x as u32 } else { (x as i64 + 0x1_0000_0000) as u32 };
    push_u32(out, u);
}

pub fn push_bytes(out: &mut Vec<u8>, bytes: &[u8])
    ensures
        final(out)@ == old(out)@ + bytes@,
{
    let mut i: usize = 0;
    while i < bytes.len()
        invariant
            i <= bytes@.len(),
            out@ == old(out)@ + bytes@.subrange(0, i as int),
        decreases bytes@.len() - i,
    {
        out.push(bytes[i]);
        i += 1;
        assert(out@ =~= old(out)@ + bytes@.subrange(0, i as int));
    }
    assert(bytes@.subrange(0, bytes@.len() as int) =~= bytes@);
}

pub fn push_str(out: &mut Vec<u8>, s: &str)
    ensures
        final(out)@ == old(out)@ + enc_str(s@),
{
    push_bytes(out, s.as_bytes());
}

pub fn push_u16s(out: &mut Vec<u8>, v: &[u16])
    ensures
        final(out)@ == old(out)@ + enc_u16_seq(v@),
{
    let mut i: usize = 0;
    while i < v.len()
        invariant
            i <= v@.len(),
            out@ == old(out)@ + enc_u16_seq(v@.subrange(0, i as int)),
        decreases v@.len() - i,
    {
        let ghost before = out@;
        push_u16(out, v[i]);
        i += 1;
        assert(v@.subrange(0, i as int).drop_last() =~= v@.subrange(0, i - 1));
        assert(out@ =~= old(out)@ + enc_u16_seq(v@.subrange(0, i as int)));
    }
    assert(v@.subrange(0, v@.len() as int) =~= v@);
}

/// A framed message: the declared payload length (16 bit), message type,
/// user ID and payload
pub open spec fn frame_declared(message_type: u8, user_id: u8, declared: u16, payload: Seq<u8>) -> Seq<
    u8,
> {
    enc_u16(declared) + seq![message_type, user_id] + payload
}

/// A framed message whose length field holds the payload length modulo 2^16
pub open spec fn frame(message_type: u8, user_id: u8, payload: Seq<u8>) -> Seq<u8> {
    frame_declared(message_type, user_id, (payload.len() % 0x1_0000) as u16, payload)
}

/// Prefix a payload with a message header declaring the given length
pub fn frame_message_declared(message_type: u8, user_id: u8, declared: u16, payload: &[u8]) -> (r:
    Vec<u8>)
    ensures
        r@ == frame_declared(message_type, user_id, declared, payload@),
{
    let mut out: Vec<u8> = Vec::with_capacity(4);
    push_u16(&mut out, declared);
    out.push(message_type);
    out.push(user_id);
    push_bytes(&mut out, payload);
    assert(out@ =~= frame_declared(message_type, user_id, declared, payload@));
    out
}

/// Prefix a payload with the message header
pub fn frame_message(message_type: u8, user_id: u8, payload: &[u8]) -> (r: Vec<u8>)
    ensures
        r@ == frame(message_type, user_id, payload@),
{
    frame_message_declared(message_type, user_id, (payload.len() % 0x1_0000) as u16, payload)
}

// ---------------------------------------------------------------------------
// Reading back a field that was written at a given offset
// ---------------------------------------------------------------------------

pub proof fn lemma_u8_at(s: Seq<u8>, i: int, x: u8)
    requires
        0 <= i,
        i + 1 <= s.len(),
        s.subrange(i, i + 1) == enc_u8(x),
    ensures
        s[i] == x,
{
    assert(s[i] == s.subrange(i, i + 1)[0]);
}

pub proof fn lemma_bool_at(s: Seq<u8>, i: int, x: bool)
    requires
        0 <= i,
        i + 1 <= s.len(),
        s.subrange(i, i + 1) == enc_bool(x),
    ensures
        dec_bool(s, i) == x,
{
    assert(s[i] == s.subrange(i, i + 1)[0]);
}

pub proof fn lemma_i8_at(s: Seq<u8>, i: int, x: i8)
    requires
        0 <= i,
        i + 1 <= s.len(),
        s.subrange(i, i + 1) == enc_i8(x),
    ensures
        dec_i8(s, i) == x,
{
    assert(s[i] == s.subrange(i, i + 1)[0]);
}

pub proof fn lemma_u16_at(s: Seq<u8>, i: int, x: u16)
    requires
        0 <= i,
        i + 2 <= s.len(),
        s.subrange(i, i + 2) == enc_u16(x),
    ensures
        dec_u16(s, i) == x,
{
    let t = s.subrange(i, i + 2);
    assert(s[i] == t[0] && s[i + 1] == t[1]);
    lemma_u16_roundtrip(x);
}

pub proof fn lemma_u32_at(s: Seq<u8>, i: int, x: u32)
    requires
        0 <= i,
        i + 4 <= s.len(),
        s.subrange(i, i + 4) == enc_u32(x),
    ensures
        dec_u32(s, i) == x,
{
    let t = s.subrange(i, i + 4);
    assert(s[i] == t[0] && s[i + 1] == t[1] && s[i + 2] == t[2] && s[i + 3] == t[3]);
    lemma_u32_roundtrip(x);
}

pub proof fn lemma_i32_at(s: Seq<u8>, i: int, x: i32)
    requires
        0 <= i,
        i + 4 <= s.len(),
        s.subrange(i, i + 4) == enc_i32(x),
    ensures
        dec_i32(s, i) == x,
{
    lemma_u32_at(s, i, i32_bits(x));
    lemma_i32_roundtrip(x);
}

// ---------------------------------------------------------------------------
// Re-encoding decoded fields gives back the bytes they were decoded from
// ---------------------------------------------------------------------------

pub proof fn lemma_u16_reencode(s: Seq<u8>, i: int)
    requires
        0 <= i,
        i + 2 <= s.len(),
    ensures
        enc_u16(dec_u16(s, i)) == s.subrange(i, i + 2),
{
    assert(enc_u16(dec_u16(s, i)) =~= s.subrange(i, i + 2));
}

pub proof fn lemma_u32_reencode(s: Seq<u8>, i: int)
    requires
        0 <= i,
        i + 4 <= s.len(),
    ensures
        enc_u32(dec_u32(s, i)) == s.subrange(i, i + 4),
{
    let a = s[i] as int;
    let b = s[i + 1] as int;
    let c = s[i + 2] as int;
    let d = s[i + 3] as int;
    let x = a * 0x100_0000 + b * 0x1_0000 + c * 256 + d;
    assert(x / 0x100_0000 == a && (x / 0x1_0000) % 256 == b && (x / 256) % 256 == c && x % 256
        == d) by (nonlinear_arith)
        requires
            0 <= a < 256,
            0 <= b < 256,
            0 <= c < 256,
            0 <= d < 256,
            x == a * 0x100_0000 + b * 0x1_0000 + c * 256 + d,
    ;
    assert(enc_u32(dec_u32(s, i)) =~= s.subrange(i, i + 4));
}

pub proof fn lemma_i32_reencode(s: Seq<u8>, i: int)
    requires
        0 <= i,
        i + 4 <= s.len(),
    ensures
        enc_i32(dec_i32(s, i)) == s.subrange(i, i + 4),
{
    lemma_u32_reencode(s, i);
}

pub proof fn lemma_i8_reencode(s: Seq<u8>, i: int)
    requires
        0 <= i,
        i + 1 <= s.len(),
    ensures
        enc_i8(dec_i8(s, i)) == s.subrange(i, i + 1),
{
    assert(enc_i8(dec_i8(s, i)) =~= s.subrange(i, i + 1));
}

pub proof fn lemma_u8_reencode(s: Seq<u8>, i: int)
    requires
        0 <= i,
        i + 1 <= s.len(),
    ensures
        enc_u8(s[i]) == s.subrange(i, i + 1),
{
    assert(enc_u8(s[i]) =~= s.subrange(i, i + 1));
}

pub proof fn lemma_bool_reencode(s: Seq<u8>, i: int)
    requires
        0 <= i,
        i + 1 <= s.len(),
        s[i] <= 1,
    ensures
        enc_bool(dec_bool(s, i)) == s.subrange(i, i + 1),
{
    assert(enc_bool(dec_bool(s, i)) =~= s.subrange(i, i + 1));
}

pub proof fn lemma_str_reencode(s: Seq<u8>)
    requires
        valid_utf8(s),
    ensures
        enc_str(dec_str(s)) == s,
{
}

pub proof fn lemma_u16_seq_reencode(s: Seq<u8>)
    requires
        s.len() % 2 == 0,
    ensures
        enc_u16_seq(dec_u16_seq(s)) == s,
    decreases s.len(),
{
    if s.len() > 0 {
        let init = s.subrange(0, s.len() - 2);
        lemma_u16_seq_reencode(init);
        let v = dec_u16_seq(s);
        assert(v.drop_last() =~= dec_u16_seq(init));
        lemma_u16_reencode(s, s.len() - 2);
        assert(enc_u16_seq(v) =~= s);
    } else {
        assert(enc_u16_seq(dec_u16_seq(s)) =~= s);
    }
}

} // verus!
