//! Standard base64 (RFC 4648 alphabet, with `=` padding), used for binary
//! fields in the text form of messages.
use vstd::prelude::*;

verus! {

/// The character for a 6 bit value
pub open spec fn b64_char(v: int) -> char {
    if v < 26 {
        (65 + v) as char
    } else if v < 52 {
        (71 + v) as char
    } else if v < 62 {
        (v - 4) as char
    } else if v == 62 {
        '+'
    } else {
        '/'
    }
}

pub open spec fn is_b64_char(c: char) -> bool {
    ('A' <= c <= 'Z') || ('a' <= c <= 'z') || ('0' <= c <= '9') || c == '+' || c == '/'
}

/// The 6 bit value of an alphabet character
pub open spec fn b64_value(c: char) -> int {
    if 'A' <= c <= 'Z' {
        c as int - 65
    } else if 'a' <= c <= 'z' {
        c as int - 71
    } else if '0' <= c <= '9' {
        c as int + 4
    } else if c == '+' {
        62
    } else {
        63
    }
}

/// The 24 bit value of three bytes starting at `i` (missing bytes count as zero)
pub open spec fn triple(b: Seq<u8>, i: int) -> int {
    let b0 = b[i] as int;
    let b1 = if i + 1 < b.len() {
        b[i + 1] as int
    } else {
        0
    };
    let b2 = if i + 2 < b.len() {
        b[i + 2] as int
    } else {
        0
    };
    b0 * 65536 + b1 * 256 + b2
}

/// Four characters for the three bytes at `i`
pub open spec fn enc_group(b: Seq<u8>, i: int) -> Seq<char> {
    let n = triple(b, i);
    seq![b64_char(n / 262144), b64_char((n / 4096) % 64), b64_char((n / 64) % 64), b64_char(n % 64)]
}

/// Encoding of the first `g` complete groups of three bytes
pub open spec fn enc_groups(b: Seq<u8>, g: nat) -> Seq<char>
    decreases g,
{
    if g == 0 {
        Seq::empty()
    } else {
        enc_groups(b, (g - 1) as nat) + enc_group(b, 3 * (g - 1))
    }
}

/// Base64 encoding of a byte sequence
pub open spec fn base64_encode(b: Seq<u8>) -> Seq<char> {
    let g = b.len() / 3;
    let rest = b.len() % 3;
    let e = enc_group(b, 3 * g as int);
    enc_groups(b, g) + if rest == 0 {
        Seq::empty()
    } else if rest == 1 {
        seq![e[0], e[1], '=', '=']
    } else {
        seq![e[0], e[1], e[2], '=']
    }
}

fn b64_char_exec(v: u32) -> (c: char)
    requires
        v < 64,
    ensures
        c == b64_char(v as int),
{
    if v < 26 {
        (65 + v as u8) as char
    } else if v < 52 {
        (71 + v as u8) as char
    } else if v < 62 {
        (v as u8 - 4) as char
    } else if v == 62 {
        '+'
    } else {
        '/'
    }
}

/// Encode bytes as base64
pub fn base64_encode_exec(b: &[u8]) -> (r: Vec<char>)
    ensures
        r@ == base64_encode(b@),
{
    let g = b.len() / 3;
    let mut out: Vec<char> = Vec::new();
    let mut i: usize = 0;
    while i < g
        invariant
            g == b@.len() / 3,
            i <= g,
            out@ == enc_groups(b@, i as nat),
        decreases g - i,
    {
        let n = b[3 * i] as u32 * 65536 + b[3 * i + 1] as u32 * 256 + b[3 * i + 2] as u32;
        assert(n == triple(b@, 3 * i as int));
        out.push(b64_char_exec(n / 262144));
        out.push(b64_char_exec((n / 4096) % 64));
        out.push(b64_char_exec((n / 64) % 64));
        out.push(b64_char_exec(n % 64));
        i += 1;
        assert(out@ =~= enc_groups(b@, i as nat));
    }
    let rest = b.len() % 3;
    let ghost e = enc_group(b@, 3 * g as int);
    if rest == 1 {
        let n = b[3 * g] as u32 * 65536;
        assert(n == triple(b@, 3 * g as int));
        out.push(b64_char_exec(n / 262144));
        out.push(b64_char_exec((n / 4096) % 64));
        out.push('=');
        out.push('=');
    } else if rest == 2 {
        let n = b[3 * g] as u32 * 65536 + b[3 * g + 1] as u32 * 256;
        assert(n == triple(b@, 3 * g as int));
        out.push(b64_char_exec(n / 262144));
        out.push(b64_char_exec((n / 4096) % 64));
        out.push(b64_char_exec((n / 64) % 64));
        out.push('=');
    }
    assert(out@ =~= base64_encode(b@));
    out
}

// ---------------------------------------------------------------------------
// Decoding
// ---------------------------------------------------------------------------

/// Whether a character sequence is valid base64: whole groups of four
/// alphabet characters, where the last one or two characters of the last
/// group may be padding
pub open spec fn valid_base64(s: Seq<char>) -> bool {
    let n = s.len() as int;
    &&& n % 4 == 0
    &&& forall|i: int|
        0 <= i < n ==> (is_b64_char(#[trigger] s[i]) || (i == n - 1 && s[i] == '=') || (i == n - 2
            && s[i] == '=' && s[n - 1] == '='))
}

/// Number of padding characters at the end
pub open spec fn padding(s: Seq<char>) -> int {
    if s.len() >= 2 && s[s.len() - 2] == '=' {
        2
    } else if s.len() >= 1 && s[s.len() - 1] == '=' {
        1
    } else {
        0
    }
}

/// The 24 bit value of the group of four characters at `i` (padding counts as zero)
pub open spec fn quad(s: Seq<char>, i: int) -> int {
    let v = |c: char|
        if c == '=' {
            0
        } else {
            b64_value(c)
        };
    v(s[i]) * 262144 + v(s[i + 1]) * 4096 + v(s[i + 2]) * 64 + v(s[i + 3])
}

/// The bytes of the first `g` groups of four characters
pub open spec fn dec_groups(s: Seq<char>, g: nat) -> Seq<u8>
    decreases g,
{
    if g == 0 {
        Seq::empty()
    } else {
        let n = quad(s, 4 * (g - 1));
        dec_groups(s, (g - 1) as nat) + seq![
            (n / 65536) as u8,
            ((n / 256) % 256) as u8,
            (n % 256) as u8,
        ]
    }
}

/// The bytes of a valid base64 string
pub open spec fn base64_decode(s: Seq<char>) -> Seq<u8> {
    let all = dec_groups(s, (s.len() / 4) as nat);
    all.subrange(0, all.len() - padding(s))
}

fn b64_value_exec(c: char) -> (r: Option<u32>)
    ensures
        r matches Some(v) ==> is_b64_char(c) && v == b64_value(c) && v < 64,
        r is None ==> !is_b64_char(c),
{
    if 'A' <= c && c <= 'Z' {
        Some(c as u32 - 65)
    } else if 'a' <= c && c <= 'z' {
        Some(c as u32 - 71)
    } else if '0' <= c && c <= '9' {
        Some(c as u32 + 4)
    } else if c == '+' {
        Some(62)
    } else if c == '/' {
        Some(63)
    } else {
        None
    }
}

proof fn lemma_dec_groups_len(s: Seq<char>, g: nat)
    ensures
        dec_groups(s, g).len() == 3 * g,
    decreases g,
{
    if g > 0 {
        lemma_dec_groups_len(s, (g - 1) as nat);
    }
}

/// Decode base64; `None` when the input is not valid base64
pub fn base64_decode_exec(s: &[char]) -> (r: Option<Vec<u8>>)
    ensures
        r is Some <==> valid_base64(s@),
        r matches Some(v) ==> v@ == base64_decode(s@),
{
    let n = s.len();
    if n % 4 != 0 {
        return None;
    }
    // check the characters
    let mut i: usize = 0;
    while i < n
        invariant
            n == s@.len(),
            n % 4 == 0,
            i <= n,
            forall|j: int|
                0 <= j < i ==> (is_b64_char(#[trigger] s@[j]) || (j == n - 1 && s@[j] == '=') || (j
                    == n - 2 && s@[j] == '=' && s@[n - 1] == '=')),
        decreases n - i,
    {
        let c = s[i];
        let ok = match b64_value_exec(c) {
            Some(_) => true,
            None => (i == n - 1 && c == '=') || (i + 2 == n && c == '=' && s[n - 1] == '='),
        };
        if !ok {
            return None;
        }
        i += 1;
    }
    let mut out: Vec<u8> = Vec::new();
    let g = n / 4;
    let mut k: usize = 0;
    while k < g
        invariant
            n == s@.len(),
            g == n / 4,
            n % 4 == 0,
            k <= g,
            valid_base64(s@),
            out@ == dec_groups(s@, k as nat),
        decreases g - k,
    {
        let mut vals: [u32; 4] = [0, 0, 0, 0];
        let mut j: usize = 0;
        while j < 4
            invariant
                n == s@.len(),
                k < g,
                g == n / 4,
                j <= 4,
                valid_base64(s@),
                forall|t: int|
                    0 <= t < j ==> vals@[t] == (if s@[4 * k + t] == '=' {
                        0
                    } else {
                        b64_value(s@[4 * k + t])
                    }),
                forall|t: int| 0 <= t < j ==> vals@[t] < 64,
            decreases 4 - j,
        {
            let c = s[4 * k + j];
            assert(is_b64_char(c) || c == '=');
            let v = match b64_value_exec(c) {
                Some(v) => v,
                None => 0,
            };
            vals[j] = v;
            j += 1;
        }
        let q = vals[0] * 262144 + vals[1] * 4096 + vals[2] * 64 + vals[3];
        assert(q == quad(s@, 4 * k as int));
        out.push((q / 65536) as u8);
        out.push(((q / 256) % 256) as u8);
        out.push((q % 256) as u8);
        k += 1;
        assert(out@ =~= dec_groups(s@, k as nat));
    }
    proof {
        lemma_dec_groups_len(s@, g as nat);
    }
    let pad: usize = if n >= 2 && s[n - 2] == '=' {
        2
    } else if n >= 1 && s[n - 1] == '=' {
        1
    } else {
        0
    };
    assert(pad <= out@.len()) by {
        if pad > 0 {
            assert(n > 0);
        }
    }
    out.truncate(out.len() - pad);
    assert(out@ =~= base64_decode(s@));
    Some(out)
}

// ---------------------------------------------------------------------------
// Decoding what was encoded
// ---------------------------------------------------------------------------

proof fn lemma_b64_char(v: int)
    requires
        0 <= v < 64,
    ensures
        is_b64_char(b64_char(v)),
        b64_value(b64_char(v)) == v,
        b64_char(v) != '=',
{
}

proof fn lemma_enc_groups(b: Seq<u8>, g: nat)
    ensures
        enc_groups(b, g).len() == 4 * g,
        forall|k: int|
            0 <= k < 4 * g ==> #[trigger] enc_groups(b, g)[k] == enc_group(b, 3 * (k / 4))[k % 4],
    decreases g,
{
    if g > 0 {
        lemma_enc_groups(b, (g - 1) as nat);
        let prev = enc_groups(b, (g - 1) as nat);
        let cur = enc_groups(b, g);
        assert forall|k: int| 0 <= k < 4 * g implies #[trigger] cur[k] == enc_group(
            b,
            3 * (k / 4),
        )[k % 4] by {
            if k < 4 * (g - 1) {
                assert(cur[k] == prev[k]);
            } else {
                assert(k / 4 == g - 1);
            }
        }
    }
}

/// The value of three bytes, and the bytes back from it
proof fn lemma_triple_bytes(b0: u8, b1: u8, b2: u8)
    ensures
        0 <= b0 * 65536 + b1 * 256 + b2 < 16777216,
        (b0 * 65536 + b1 * 256 + b2) / 65536 == b0,
        ((b0 * 65536 + b1 * 256 + b2) / 256) % 256 == b1,
        (b0 * 65536 + b1 * 256 + b2) % 256 == b2,
{
    assert((b0 * 65536 + b1 * 256 + b2) / 65536 == b0) by (bit_vector);
    assert(((b0 * 65536 + b1 * 256 + b2) / 256) % 256 == b1) by (bit_vector);
    assert((b0 * 65536 + b1 * 256 + b2) % 256 == b2) by (bit_vector);
}

/// A 24 bit value from its four 6 bit parts
proof fn lemma_sextets(n: u32)
    requires
        n < 16777216,
    ensures
        n == (n / 262144) * 262144 + ((n / 4096) % 64) * 4096 + ((n / 64) % 64) * 64 + n % 64,
        n / 262144 < 64,
{
    assert(n == (n / 262144) * 262144 + ((n / 4096) % 64) * 4096 + ((n / 64) % 64) * 64 + n % 64)
        by (bit_vector)
        requires
            n < 16777216,
    ;
    assert(n / 262144 < 64) by (bit_vector)
        requires
            n < 16777216,
    ;
}

/// The quad of an encoded group is the group's value
proof fn lemma_quad_group(s: Seq<char>, i: int, b: Seq<u8>, j: int)
    requires
        0 <= i,
        i + 4 <= s.len(),
        0 <= j < b.len(),
        forall|t: int| 0 <= t < 4 ==> s[i + t] == #[trigger] enc_group(b, j)[t],
    ensures
        quad(s, i) == triple(b, j),
{
    let n = triple(b, j);
    let b0 = b[j];
    let b1: u8 = if j + 1 < b.len() {
        b[j + 1]
    } else {
        0
    };
    let b2: u8 = if j + 2 < b.len() {
        b[j + 2]
    } else {
        0
    };
    lemma_triple_bytes(b0, b1, b2);
    lemma_sextets(n as u32);
    let e = enc_group(b, j);
    assert(s[i] == e[0] && s[i + 1] == e[1] && s[i + 2] == e[2] && s[i + 3] == e[3]);
    lemma_b64_char(n / 262144);
    lemma_b64_char((n / 4096) % 64);
    lemma_b64_char((n / 64) % 64);
    lemma_b64_char(n % 64);
}

/// The full groups decode to the bytes they encode
proof fn lemma_dec_full_groups(b: Seq<u8>, s: Seq<char>, j: nat)
    requires
        3 * j <= b.len(),
        4 * j <= s.len(),
        forall|k: int| 0 <= k < 4 * j ==> s[k] == #[trigger] enc_group(b, 3 * (k / 4))[k % 4],
    ensures
        dec_groups(s, j) == b.subrange(0, 3 * j as int),
    decreases j,
{
    if j > 0 {
        lemma_dec_full_groups(b, s, (j - 1) as nat);
        let i = 4 * (j - 1);
        let m = 3 * (j - 1);
        assert forall|t: int| 0 <= t < 4 implies s[i + t] == #[trigger] enc_group(b, m)[t] by {
            assert((i + t) / 4 == j - 1);
            assert((i + t) % 4 == t);
            assert(s[i + t] == enc_group(b, 3 * ((i + t) / 4))[(i + t) % 4]);
        }
        lemma_quad_group(s, i, b, m);
        lemma_triple_bytes(b[m], b[m + 1], b[m + 2]);
        assert(dec_groups(s, j) =~= b.subrange(0, 3 * j as int));
    }
}

proof fn lemma_group_chars(b: Seq<u8>, j: int)
    requires
        0 <= j < b.len(),
    ensures
        forall|t: int| 0 <= t < 4 ==> is_b64_char(#[trigger] enc_group(b, j)[t]),
{
    let b1: u8 = if j + 1 < b.len() {
        b[j + 1]
    } else {
        0
    };
    let b2: u8 = if j + 2 < b.len() {
        b[j + 2]
    } else {
        0
    };
    let n = triple(b, j);
    lemma_triple_bytes(b[j], b1, b2);
    lemma_sextets(n as u32);
    lemma_b64_char(n / 262144);
    lemma_b64_char((n / 4096) % 64);
    lemma_b64_char((n / 64) % 64);
    lemma_b64_char(n % 64);
}

/// The characters of an encoding: full groups, then the last group padded
proof fn lemma_encode_shape(b: Seq<u8>)
    ensures
        ({
            let g = b.len() as int / 3;
            let s = base64_encode(b);
            &&& s.len() == 4 * g + if b.len() % 3 == 0 {
                0int
            } else {
                4
            }
            &&& forall|k: int|
                0 <= k < 4 * g ==> s[k] == #[trigger] enc_group(b, 3 * (k / 4))[k % 4]
            &&& forall|k: int| 0 <= k < 4 * g ==> is_b64_char(#[trigger] s[k])
        }),
{
    let g: int = b.len() as int / 3;
    let s = base64_encode(b);
    let eg = enc_groups(b, g as nat);
    lemma_enc_groups(b, g as nat);
    assert forall|k: int| 0 <= k < 4 * g implies s[k] == #[trigger] enc_group(b, 3 * (k / 4))[k
        % 4] by {
        assert(s[k] == eg[k]);
    }
    assert forall|k: int| 0 <= k < 4 * g implies is_b64_char(#[trigger] s[k]) by {
        assert(s[k] == eg[k]);
        assert(0 <= k / 4 < g);
        lemma_group_chars(b, 3 * (k / 4));
        assert(is_b64_char(enc_group(b, 3 * (k / 4))[k % 4]));
    }
}

/// Encoded bytes are valid base64
proof fn lemma_base64_valid(b: Seq<u8>)
    ensures
        valid_base64(base64_encode(b)),
{
    let g: int = b.len() as int / 3;
    let rest: int = b.len() as int % 3;
    let s = base64_encode(b);
    lemma_encode_shape(b);
    let n = s.len() as int;
    if rest != 0 {
        lemma_group_chars(b, 3 * g);
        let e = enc_group(b, 3 * g);
        assert(s[4 * g] == e[0] && s[4 * g + 1] == e[1]);
        assert(is_b64_char(e[0]) && is_b64_char(e[1]));
        if rest == 2 {
            assert(s[4 * g + 2] == e[2]);
            assert(is_b64_char(e[2]));
        }
    }
    assert forall|i: int| 0 <= i < n implies (is_b64_char(#[trigger] s[i]) || (i == n - 1 && s[i]
        == '=') || (i == n - 2 && s[i] == '=' && s[n - 1] == '=')) by {
        if i < 4 * g {
        }
    }
}

/// The last, padded group decodes to the bytes it encodes
#[verifier::rlimit(30)]
proof fn lemma_base64_decode_tail(b: Seq<u8>)
    requires
        b.len() % 3 != 0,
    ensures
        ({
            let g: int = b.len() as int / 3;
            let s = base64_encode(b);
            let all = dec_groups(s, (g + 1) as nat);
            &&& s.len() / 4 == g + 1
            &&& all[3 * g] == b[3 * g]
            &&& b.len() % 3 == 2 ==> all[3 * g + 1] == b[3 * g + 1]
            &&& all.subrange(0, 3 * g) == dec_groups(s, g as nat)
            &&& padding(s) == 3 - b.len() % 3
            &&& all.len() == 3 * g + 3
        }),
{
    let g: int = b.len() as int / 3;
    let rest: int = b.len() as int % 3;
    let s = base64_encode(b);
    lemma_encode_shape(b);
    let e = enc_group(b, 3 * g);
    let b0 = b[3 * g];
    let b1: u8 = if rest == 2 {
        b[3 * g + 1]
    } else {
        0
    };
    let n = triple(b, 3 * g);
    lemma_triple_bytes(b0, b1, 0);
    lemma_sextets(n as u32);
    lemma_b64_char(n / 262144);
    lemma_b64_char((n / 4096) % 64);
    lemma_b64_char((n / 64) % 64);
    let i = 4 * g;
    assert(s[i] == e[0] && s[i + 1] == e[1]);
    let nn = n as u32;
    if rest == 1 {
        assert(nn % 4096 == 0) by (bit_vector)
            requires
                nn == b0 * 65536,
        ;
        assert(quad(s, i) == n);
    } else {
        assert(s[i + 2] == e[2]);
        assert(nn % 64 == 0) by (bit_vector)
            requires
                nn == b0 * 65536 + b1 * 256,
        ;
        assert(quad(s, i) == n);
    }
    assert(s.len() / 4 == g + 1);
    lemma_dec_groups_len(s, g as nat);
    let all = dec_groups(s, (g + 1) as nat);
    assert(all.subrange(0, 3 * g) =~= dec_groups(s, g as nat));
}

/// Encoded bytes decode back to the bytes
proof fn lemma_base64_decode(b: Seq<u8>)
    ensures
        base64_decode(base64_encode(b)) == b,
{
    let g: int = b.len() as int / 3;
    let rest: int = b.len() as int % 3;
    let s = base64_encode(b);
    lemma_encode_shape(b);
    lemma_dec_full_groups(b, s, g as nat);
    if rest == 0 {
        if s.len() >= 1 {
            assert(is_b64_char(s[s.len() - 1]));
        }
        if s.len() >= 2 {
            assert(is_b64_char(s[s.len() - 2]));
        }
        assert(s.len() / 4 == g);
        assert(b.subrange(0, 3 * g) =~= b);
    } else {
        lemma_base64_decode_tail(b);
        let all = dec_groups(s, (g + 1) as nat);
        assert(all.subrange(0, all.len() - padding(s)) =~= b);
    }
}

/// Encoded bytes are valid base64 and decode back to the bytes
pub proof fn lemma_base64_roundtrip(b: Seq<u8>)
    ensures
        valid_base64(base64_encode(b)),
        base64_decode(base64_encode(b)) == b,
{
    lemma_base64_valid(b);
    lemma_base64_decode(b);
}

} // verus!
