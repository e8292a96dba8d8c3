//! Formatting and parsing of the values in the text form of messages:
//! decimal and hexadecimal integers, fixed point fractions and ARGB colors.
use vstd::prelude::*;

verus! {

// ---------------------------------------------------------------------------
// Strings as character vectors
// ---------------------------------------------------------------------------

/// The characters of a string
#[verifier::external_body]
pub(crate) fn str_chars(s: &str) -> (v: Vec<char>)
    ensures
        v@ == s@,
{
    s.chars().collect()
}

/// A string made of the given characters
#[verifier::external_body]
pub(crate) fn chars_to_string(v: &[char]) -> (s: String)
    ensures
        s@ == v@,
{
    v.iter().collect()
}

pub fn push_chars(out: &mut Vec<char>, s: &[char])
    ensures
        final(out)@ == old(out)@ + s@,
{
    let mut i: usize = 0;
    while i < s.len()
        invariant
            i <= s@.len(),
            out@ == old(out)@ + s@.subrange(0, i as int),
        decreases s@.len() - i,
    {
        out.push(s[i]);
        i += 1;
        assert(out@ =~= old(out)@ + s@.subrange(0, i as int));
    }
    assert(s@.subrange(0, s@.len() as int) =~= s@);
}

pub fn push_str_chars(out: &mut Vec<char>, s: &str)
    ensures
        final(out)@ == old(out)@ + s@,
{
    let v = str_chars(s);
    push_chars(out, v.as_slice());
}

/// Whether two character sequences are equal
pub fn chars_eq(a: &[char], b: &[char]) -> (r: bool)
    ensures
        r <==> a@ == b@,
{
    if a.len() != b.len() {
        return false;
    }
    let mut i: usize = 0;
    while i < a.len()
        invariant
            a@.len() == b@.len(),
            i <= a@.len(),
            forall|j: int| 0 <= j < i ==> a@[j] == b@[j],
        decreases a@.len() - i,
    {
        if a[i] != b[i] {
            return false;
        }
        i += 1;
    }
    assert(a@ =~= b@);
    true
}

// ---------------------------------------------------------------------------
// Digits
// ---------------------------------------------------------------------------

pub open spec fn digit_char(d: int) -> char {
    (48 + d) as char
}

pub open spec fn hex_char(d: int) -> char {
    if d < 10 {
        (48 + d) as char
    } else {
        (87 + d) as char
    }
}

pub open spec fn is_digit(c: char) -> bool {
    '0' <= c <= '9'
}

pub open spec fn digit_value(c: char) -> int {
    c as int - 48
}

pub open spec fn is_hex_digit(c: char) -> bool {
    ('0' <= c <= '9') || ('a' <= c <= 'f') || ('A' <= c <= 'F')
}

pub open spec fn hex_value(c: char) -> int {
    if '0' <= c <= '9' {
        c as int - 48
    } else if 'a' <= c <= 'f' {
        c as int - 87
    } else {
        c as int - 55
    }
}

/// Decimal notation of a natural number, without leading zeros
pub open spec fn dec_digits(n: nat) -> Seq<char>
    decreases n,
{
    if n < 10 {
        seq![digit_char(n as int)]
    } else {
        dec_digits(n / 10).push(digit_char((n % 10) as int))
    }
}

/// Lowercase hexadecimal notation, padded with zeros to at least `width` digits
pub open spec fn hex_digits(n: nat, width: nat) -> Seq<char>
    decreases n + width,
{
    if n < 16 && width <= 1 {
        seq![hex_char(n as int)]
    } else {
        hex_digits(n / 16, if width > 0 {
            (width - 1) as nat
        } else {
            0
        }).push(hex_char((n % 16) as int))
    }
}

/// Decimal notation of an integer
pub open spec fn int_str(v: int) -> Seq<char> {
    if v < 0 {
        seq!['-'] + dec_digits((-v) as nat)
    } else {
        dec_digits(v as nat)
    }
}

pub fn push_dec(out: &mut Vec<char>, n: u64)
    ensures
        final(out)@ == old(out)@ + dec_digits(n as nat),
    decreases n,
{
    if n >= 10 {
        push_dec(out, n / 10);
    }
    let d = (n % 10) as u8;
    out.push((48u8 + d) as char);
    assert(out@ =~= old(out)@ + dec_digits(n as nat));
}

pub fn push_int(out: &mut Vec<char>, v: i64)
    ensures
        final(out)@ == old(out)@ + int_str(v as int),
{
    if v < 0 {
        out.push('-');
        let m: u64 = if v == i64::MIN {
            0x8000_0000_0000_0000u64
        } else {
            (-v) as u64
        };
        let ghost mid = out@;
        push_dec(out, m);
        assert(out@ =~= old(out)@ + int_str(v as int));
    } else {
        push_dec(out, v as u64);
    }
}

pub fn push_hex(out: &mut Vec<char>, n: u64, width: u64)
    requires
        width <= 16,
    ensures
        final(out)@ == old(out)@ + hex_digits(n as nat, width as nat),
    decreases n + width,
{
    if !(n < 16 && width <= 1) {
        push_hex(out, n / 16, if width > 0 { width - 1 } else { 0 });
    }
    let d = (n % 16) as u8;
    if d < 10 {
        out.push((48u8 + d) as char);
    } else {
        out.push((87u8 + d) as char);
    }
    assert(out@ =~= old(out)@ + hex_digits(n as nat, width as nat));
}

// ---------------------------------------------------------------------------
// Fixed point fractions
// ---------------------------------------------------------------------------

pub open spec fn pow2(k: nat) -> nat
    decreases k,
{
    if k == 0 {
        1
    } else {
        2 * pow2((k - 1) as nat)
    }
}

/// Up to `n` decimal digits of the fraction `f / 2^k`
pub open spec fn frac_digits(f: nat, k: nat, n: nat) -> Seq<char>
    decreases n,
{
    if n == 0 || f == 0 {
        Seq::empty()
    } else {
        seq![digit_char(((f * 10) / pow2(k)) as int)] + frac_digits(
            ((f * 10) % pow2(k)) as nat,
            k,
            (n - 1) as nat,
        )
    }
}

/// Decimal notation of `v / 2^k`, with as few fraction digits as needed
pub open spec fn fixed_str(v: int, k: nat) -> Seq<char> {
    let m = if v < 0 {
        -v
    } else {
        v
    };
    let sign = if v < 0 {
        seq!['-']
    } else {
        Seq::<char>::empty()
    };
    let f = (m % pow2(k) as int) as nat;
    sign + dec_digits((m / pow2(k) as int) as nat) + if f == 0 {
        Seq::<char>::empty()
    } else {
        seq!['.'] + frac_digits(f, k, k)
    }
}

proof fn lemma_pow2_small(k: nat)
    requires
        k <= 8,
    ensures
        1 <= pow2(k) <= 256,
{
    reveal_with_fuel(pow2, 9);
    assert(k == 0 || k == 1 || k == 2 || k == 3 || k == 4 || k == 5 || k == 6 || k == 7 || k
        == 8);
}

fn push_frac_digits(out: &mut Vec<char>, f: u64, k: u64, n: u64)
    requires
        k <= 8,
        f < pow2(k as nat),
    ensures
        final(out)@ == old(out)@ + frac_digits(f as nat, k as nat, n as nat),
    decreases n,
{
    proof {
        lemma_pow2_small(k as nat);
    }
    if n == 0 || f == 0 {
        assert(out@ =~= old(out)@ + frac_digits(f as nat, k as nat, n as nat));
        return ;
    }
    let p = pow2_exec(k);
    let d = ((f * 10) / p) as u8;
    assert((f * 10) / (p as int) < 10) by (nonlinear_arith)
        requires
            f < p,
            p >= 1,
    ;
    out.push((48u8 + d) as char);
    let ghost mid = out@;
    push_frac_digits(out, (f * 10) % p, k, n - 1);
    assert(out@ =~= old(out)@ + frac_digits(f as nat, k as nat, n as nat));
}

fn pow2_exec(k: u64) -> (p: u64)
    requires
        k <= 8,
    ensures
        p == pow2(k as nat),
    decreases k,
{
    proof {
        lemma_pow2_small(k as nat);
    }
    if k == 0 {
        1
    } else {
        proof {
            lemma_pow2_small((k - 1) as nat);
        }
        2 * pow2_exec(k - 1)
    }
}

/// Write `v / 2^k` in decimal notation
pub fn push_fixed(out: &mut Vec<char>, v: i64, k: u64)
    requires
        k <= 8,
        v > i64::MIN,
    ensures
        final(out)@ == old(out)@ + fixed_str(v as int, k as nat),
{
    proof {
        lemma_pow2_small(k as nat);
    }
    let m: u64 = if v < 0 {
        (-v) as u64
    } else {
        v as u64
    };
    if v < 0 {
        out.push('-');
    }
    let ghost signed = out@;
    let p = pow2_exec(k);
    push_dec(out, m / p);
    let f = m % p;
    if f != 0 {
        out.push('.');
        push_frac_digits(out, f, k, k);
    }
    assert(out@ =~= old(out)@ + fixed_str(v as int, k as nat));
}

// ---------------------------------------------------------------------------
// Parsing integers
// ---------------------------------------------------------------------------

pub open spec fn all_digits(s: Seq<char>) -> bool {
    forall|i: int| 0 <= i < s.len() ==> is_digit(#[trigger] s[i])
}

pub open spec fn all_hex_digits(s: Seq<char>) -> bool {
    forall|i: int| 0 <= i < s.len() ==> is_hex_digit(#[trigger] s[i])
}

/// Value of a string of decimal digits
pub open spec fn dec_value(s: Seq<char>) -> nat
    decreases s.len(),
{
    if s.len() == 0 {
        0
    } else {
        (dec_value(s.drop_last()) * 10 + digit_value(s.last())) as nat
    }
}

/// Value of a string of hexadecimal digits
pub open spec fn hex_value_of(s: Seq<char>) -> nat
    decreases s.len(),
{
    if s.len() == 0 {
        0
    } else {
        (hex_value_of(s.drop_last()) * 16 + hex_value(s.last())) as nat
    }
}

/// The largest magnitude that integer parsing accepts
pub open spec fn int_limit() -> int {
    0x1_0000_0000
}

/// An unsigned integer in decimal or (with a `0x` prefix) hexadecimal notation
pub open spec fn parse_unsigned(s: Seq<char>) -> Option<int> {
    if s.len() >= 2 && s[0] == '0' && (s[1] == 'x' || s[1] == 'X') {
        let h = s.subrange(2, s.len() as int);
        if h.len() > 0 && all_hex_digits(h) && hex_value_of(h) <= int_limit() {
            Some(hex_value_of(h) as int)
        } else {
            None
        }
    } else if s.len() > 0 && all_digits(s) && dec_value(s) <= int_limit() {
        Some(dec_value(s) as int)
    } else {
        None
    }
}

/// An integer: an unsigned integer with an optional minus sign. Values
/// whose magnitude exceeds 2^32 are not accepted.
pub open spec fn parse_int(s: Seq<char>) -> Option<int> {
    if s.len() > 0 && s[0] == '-' {
        match parse_unsigned(s.subrange(1, s.len() as int)) {
            Some(v) => Some(-v),
            None => None,
        }
    } else {
        parse_unsigned(s)
    }
}

fn parse_dec_digits(s: &[char]) -> (r: Option<u64>)
    ensures
        r matches Some(v) ==> s@.len() > 0 && all_digits(s@) && v == dec_value(s@) && v
            <= int_limit(),
        r is None ==> !(s@.len() > 0 && all_digits(s@) && dec_value(s@) <= int_limit()),
{
    if s.len() == 0 {
        return None;
    }
    let mut v: u64 = 0;
    let mut i: usize = 0;
    while i < s.len()
        invariant
            i <= s@.len(),
            all_digits(s@.subrange(0, i as int)),
            v == dec_value(s@.subrange(0, i as int)),
            v <= int_limit(),
        decreases s@.len() - i,
    {
        let c = s[i];
        assert(s@.subrange(0, i + 1).drop_last() =~= s@.subrange(0, i as int));
        if !('0' <= c && c <= '9') {
            assert(!all_digits(s@));
            return None;
        }
        let nv = v * 10 + (c as u64 - 48);
        if nv > 0x1_0000_0000 {
            proof {
                if all_digits(s@) {
                    lemma_dec_value_prefix_monotone(s@, i + 1);
                }
            }
            return None;
        }
        v = nv;
        i += 1;
    }
    assert(s@.subrange(0, s@.len() as int) =~= s@);
    Some(v)
}

fn parse_hex_digits(s: &[char]) -> (r: Option<u64>)
    ensures
        r matches Some(v) ==> s@.len() > 0 && all_hex_digits(s@) && v == hex_value_of(s@) && v
            <= int_limit(),
        r is None ==> !(s@.len() > 0 && all_hex_digits(s@) && hex_value_of(s@) <= int_limit()),
{
    if s.len() == 0 {
        return None;
    }
    let mut v: u64 = 0;
    let mut i: usize = 0;
    while i < s.len()
        invariant
            i <= s@.len(),
            all_hex_digits(s@.subrange(0, i as int)),
            v == hex_value_of(s@.subrange(0, i as int)),
            v <= int_limit(),
        decreases s@.len() - i,
    {
        let c = s[i];
        assert(s@.subrange(0, i + 1).drop_last() =~= s@.subrange(0, i as int));
        let d: u64 = if '0' <= c && c <= '9' {
            c as u64 - 48
        } else if 'a' <= c && c <= 'f' {
            c as u64 - 87
        } else if 'A' <= c && c <= 'F' {
            c as u64 - 55
        } else {
            assert(!all_hex_digits(s@));
            return None;
        };
        let nv = v * 16 + d;
        if nv > 0x1_0000_0000 {
            proof {
                if all_hex_digits(s@) {
                    lemma_hex_value_prefix_monotone(s@, i + 1);
                }
            }
            return None;
        }
        v = nv;
        i += 1;
    }
    assert(s@.subrange(0, s@.len() as int) =~= s@);
    Some(v)
}

/// The value of a digit string is at least the value of each of its prefixes
proof fn lemma_dec_value_prefix_monotone(s: Seq<char>, n: int)
    requires
        0 <= n <= s.len(),
        all_digits(s),
    ensures
        dec_value(s.subrange(0, n)) <= dec_value(s),
    decreases s.len() - n,
{
    if n < s.len() {
        lemma_dec_value_prefix_monotone(s, n + 1);
        assert(s.subrange(0, n + 1).drop_last() =~= s.subrange(0, n));
        assert(is_digit(s[n]));
    } else {
        assert(s.subrange(0, n) =~= s);
    }
}

proof fn lemma_hex_value_prefix_monotone(s: Seq<char>, n: int)
    requires
        0 <= n <= s.len(),
        all_hex_digits(s),
    ensures
        hex_value_of(s.subrange(0, n)) <= hex_value_of(s),
    decreases s.len() - n,
{
    if n < s.len() {
        lemma_hex_value_prefix_monotone(s, n + 1);
        assert(s.subrange(0, n + 1).drop_last() =~= s.subrange(0, n));
        assert(is_hex_digit(s[n]));
    } else {
        assert(s.subrange(0, n) =~= s);
    }
}

fn parse_unsigned_exec(s: &[char]) -> (r: Option<u64>)
    ensures
        r matches Some(v) ==> parse_unsigned(s@) == Some(v as int),
        r is None ==> parse_unsigned(s@) is None,
{
    if s.len() >= 2 && s[0] == '0' && (s[1] == 'x' || s[1] == 'X') {
        let h = vstd::slice::slice_subrange(s, 2, s.len());
        parse_hex_digits(h)
    } else {
        parse_dec_digits(s)
    }
}

/// Parse an integer in decimal or `0x` hexadecimal notation, with an
/// optional minus sign
pub fn parse_int_exec(s: &[char]) -> (r: Option<i64>)
    ensures
        r matches Some(v) ==> parse_int(s@) == Some(v as int),
        r is None ==> parse_int(s@) is None,
{
    if s.len() > 0 && s[0] == '-' {
        let rest = vstd::slice::slice_subrange(s, 1, s.len());
        match parse_unsigned_exec(rest) {
            Some(v) => Some(-(v as i64)),
            None => None,
        }
    } else {
        match parse_unsigned_exec(s) {
            Some(v) => Some(v as i64),
            None => None,
        }
    }
}

// ---------------------------------------------------------------------------
// Parsing fixed point fractions
// ---------------------------------------------------------------------------

pub open spec fn pow10(m: nat) -> nat
    decreases m,
{
    if m == 0 {
        1
    } else {
        10 * pow10((m - 1) as nat)
    }
}

/// Index of the first `c` in `s`, or the length of `s` when there is none
pub open spec fn first_index(s: Seq<char>, c: char) -> int
    decreases s.len(),
{
    if s.len() == 0 {
        0
    } else if s[0] == c {
        0
    } else {
        1 + first_index(s.drop_first(), c)
    }
}

/// The digits before the decimal point
pub open spec fn int_part(s: Seq<char>) -> Seq<char> {
    s.subrange(0, first_index(s, '.'))
}

/// The digits after the decimal point (empty when there is none)
pub open spec fn frac_part(s: Seq<char>) -> Seq<char> {
    let d = first_index(s, '.');
    if d < s.len() {
        s.subrange(d + 1, s.len() as int)
    } else {
        Seq::empty()
    }
}

/// The first eight digits of the fraction: enough to decide the integer
/// part of the value scaled by 2^k for k <= 8
pub open spec fn frac8(s: Seq<char>) -> Seq<char> {
    let f = frac_part(s);
    if f.len() > 8 {
        f.subrange(0, 8)
    } else {
        f
    }
}

/// A non-negative decimal fraction `digits[.digits]` times 2^k, rounded
/// toward zero
pub open spec fn parse_ufixed(s: Seq<char>, k: nat) -> Option<int> {
    let ip = int_part(s);
    let f = frac8(s);
    if ip.len() > 0 && all_digits(ip) && all_digits(frac_part(s)) {
        Some(((dec_value(ip) * pow10(f.len()) + dec_value(f)) * pow2(k)) as int / pow10(
            f.len(),
        ) as int)
    } else {
        None
    }
}

/// A decimal fraction with an optional minus sign times 2^k, rounded toward zero
pub open spec fn parse_fixed(s: Seq<char>, k: nat) -> Option<int> {
    if s.len() > 0 && s[0] == '-' {
        match parse_ufixed(s.subrange(1, s.len() as int), k) {
            Some(v) => Some(-v),
            None => None,
        }
    } else {
        parse_ufixed(s, k)
    }
}

pub open spec fn clamp(v: int, lo: int, hi: int) -> int {
    if v < lo {
        lo
    } else if v > hi {
        hi
    } else {
        v
    }
}

/// The value of a fixed point token as read into an integer field of range
/// `lo..=hi`: out of range values saturate, invalid tokens read as 0
pub open spec fn fixed_value(s: Seq<char>, k: nat, lo: int, hi: int) -> int {
    match parse_fixed(s, k) {
        Some(v) => clamp(v, lo, hi),
        None => 0,
    }
}

fn pow10_exec(m: u64) -> (p: u64)
    requires
        m <= 8,
    ensures
        p == pow10(m as nat),
        1 <= p <= 100_000_000,
{
    proof {
        reveal_with_fuel(pow10, 9);
        assert(m == 0 || m == 1 || m == 2 || m == 3 || m == 4 || m == 5 || m == 6 || m == 7 || m
            == 8);
    }
    let mut p: u64 = 1;
    let mut i: u64 = 0;
    while i < m
        invariant
            i <= m <= 8,
            p == pow10(i as nat),
            1 <= p <= pow10(i as nat),
        decreases m - i,
    {
        proof {
            reveal_with_fuel(pow10, 9);
            assert(i == 0 || i == 1 || i == 2 || i == 3 || i == 4 || i == 5 || i == 6 || i == 7);
        }
        p = p * 10;
        i += 1;
    }
    p
}

pub fn first_index_exec(s: &[char], c: char) -> (r: usize)
    ensures
        r == first_index(s@, c),
        r <= s@.len(),
        r < s@.len() ==> s@[r as int] == c,
        forall|j: int| 0 <= j < r ==> s@[j] != c,
{
    let mut i: usize = 0;
    while i < s.len()
        invariant
            i <= s@.len(),
            forall|j: int| 0 <= j < i ==> s@[j] != c,
        decreases s@.len() - i,
    {
        if s[i] == c {
            proof {
                lemma_first_index(s@, c, i as int);
            }
            return i;
        }
        i += 1;
    }
    proof {
        lemma_first_index(s@, c, i as int);
    }
    i
}

pub proof fn lemma_first_index(s: Seq<char>, c: char, i: int)
    requires
        0 <= i <= s.len(),
        forall|j: int| 0 <= j < i ==> s[j] != c,
        i < s.len() ==> s[i] == c,
    ensures
        first_index(s, c) == i,
    decreases s.len(),
{
    if s.len() > 0 && i > 0 {
        lemma_first_index(s.drop_first(), c, i - 1);
    }
}

fn all_digits_exec(s: &[char]) -> (r: bool)
    ensures
        r <==> all_digits(s@),
{
    let mut i: usize = 0;
    while i < s.len()
        invariant
            i <= s@.len(),
            forall|j: int| 0 <= j < i ==> is_digit(s@[j]),
        decreases s@.len() - i,
    {
        if !('0' <= s[i] && s[i] <= '9') {
            return false;
        }
        i += 1;
    }
    true
}

/// Value of a digit string, saturated at 2^40
fn dec_value_saturated(s: &[char]) -> (r: u64)
    requires
        all_digits(s@),
    ensures
        r == if dec_value(s@) <= 0x100_0000_0000 {
            dec_value(s@)
        } else {
            0x100_0000_0000
        },
{
    let mut v: u64 = 0;
    let mut i: usize = 0;
    while i < s.len()
        invariant
            i <= s@.len(),
            all_digits(s@),
            v == dec_value(s@.subrange(0, i as int)),
            v <= 0x100_0000_0000,
        decreases s@.len() - i,
    {
        assert(s@.subrange(0, i + 1).drop_last() =~= s@.subrange(0, i as int));
        assert(is_digit(s@[i as int]));
        let nv = v * 10 + (s[i] as u64 - 48);
        if nv > 0x100_0000_0000 {
            proof {
                lemma_dec_value_prefix_monotone(s@, i + 1);
            }
            return 0x100_0000_0000;
        }
        v = nv;
        i += 1;
    }
    assert(s@.subrange(0, s@.len() as int) =~= s@);
    v
}

fn parse_ufixed_exec(s: &[char], k: u64, hi: i64) -> (r: Option<i64>)
    requires
        k <= 8,
        0 <= hi <= 0x1_0000_0000,
    ensures
        r is None <==> parse_ufixed(s@, k as nat) is None,
        r matches Some(v) ==> v == clamp(parse_ufixed(s@, k as nat)->0, 0, hi as int),
{
    let d = first_index_exec(s, '.');
    let ip = vstd::slice::slice_subrange(s, 0, d);
    let fp = if d < s.len() {
        vstd::slice::slice_subrange(s, d + 1, s.len())
    } else {
        vstd::slice::slice_subrange(s, s.len(), s.len())
    };
    assert(ip@ == int_part(s@));
    assert(fp@ =~= frac_part(s@));
    if ip.len() == 0 || !all_digits_exec(ip) || !all_digits_exec(fp) {
        return None;
    }
    let f8 = if fp.len() > 8 {
        vstd::slice::slice_subrange(fp, 0, 8)
    } else {
        fp
    };
    assert(f8@ =~= frac8(s@));
    assert(all_digits(f8@));
    let m = f8.len() as u64;
    let iv = dec_value_saturated(ip);
    let fv = dec_value_saturated(f8);
    let p10 = pow10_exec(m);
    let p2 = pow2_exec(k);
    proof {
        lemma_pow2_small(k as nat);
        lemma_dec_value_bound(f8@);
    }
    let ghost exact = ((dec_value(ip@) * pow10(m as nat) + dec_value(f8@)) * pow2(k as nat)) as int
        / pow10(m as nat) as int;
    assert(fv < p10);
    assert(iv as u128 * p10 as u128 <= 0x100_0000_0000u128 * 100_000_000u128)
        by (nonlinear_arith)
        requires
            iv <= 0x100_0000_0000,
            1 <= p10 <= 100_000_000,
    ;
    let a = iv as u128 * p10 as u128;
    let b = a + fv as u128;
    assert(b * p2 as u128 <= (0x100_0000_0000u128 * 100_000_000u128 + 100_000_000u128)
        * 256u128) by (nonlinear_arith)
        requires
            b <= 0x100_0000_0000u128 * 100_000_000u128 + 100_000_000u128,
            p2 <= 256,
    ;
    let num = b * p2 as u128;
    let v = num / p10 as u128;
    proof {
        if dec_value(ip@) > 0x100_0000_0000 {
            assert(exact >= dec_value(ip@)) by (nonlinear_arith)
                requires
                    exact == ((dec_value(ip@) * pow10(m as nat) + dec_value(f8@)) * pow2(
                        k as nat,
                    )) as int / pow10(m as nat) as int,
                    pow10(m as nat) >= 1,
                    pow2(k as nat) >= 1,
            ;
            assert(v >= 0x100_0000_0000) by (nonlinear_arith)
                requires
                    v == (num as int) / (p10 as int),
                    num as int == (iv * p10 + fv) * p2,
                    iv == 0x100_0000_0000,
                    p10 >= 1,
                    p2 >= 1,
                    fv >= 0,
            ;
        }
    }
    if v > hi as u128 {
        Some(hi)
    } else {
        Some(v as i64)
    }
}

proof fn lemma_dec_value_bound(s: Seq<char>)
    requires
        all_digits(s),
    ensures
        dec_value(s) < pow10(s.len()),
    decreases s.len(),
{
    if s.len() > 0 {
        let init = s.drop_last();
        assert(all_digits(init)) by {
            assert forall|i: int| 0 <= i < init.len() implies is_digit(#[trigger] init[i]) by {
                assert(init[i] == s[i]);
            }
        }
        lemma_dec_value_bound(init);
        assert(is_digit(s[s.len() - 1]));
    }
}

proof fn lemma_ufixed_nonneg(s: Seq<char>, k: nat)
    ensures
        parse_ufixed(s, k) matches Some(u) ==> u >= 0,
{
    let ip = int_part(s);
    let f = frac8(s);
    let a = dec_value(ip) as int;
    let b = pow10(f.len()) as int;
    let c = dec_value(f) as int;
    let d = pow2(k) as int;
    if b > 0 {
        assert(((a * b + c) * d) / b >= 0) by (nonlinear_arith)
            requires
                a >= 0,
                b > 0,
                c >= 0,
                d >= 0,
        ;
    }
    lemma_pow10_pos(f.len());
}

proof fn lemma_pow10_pos(m: nat)
    ensures
        pow10(m) >= 1,
    decreases m,
{
    if m > 0 {
        lemma_pow10_pos((m - 1) as nat);
    }
}

/// Read a fixed point token into an integer field of range `lo..=hi`
pub fn fixed_value_exec(s: &[char], k: u64, lo: i64, hi: i64) -> (r: i64)
    requires
        k <= 8,
        -0x1_0000_0000 <= lo <= 0 <= hi <= 0x1_0000_0000,
    ensures
        r == fixed_value(s@, k as nat, lo as int, hi as int),
{
    proof {
        lemma_ufixed_nonneg(s@, k as nat);
        if s@.len() > 0 {
            lemma_ufixed_nonneg(s@.subrange(1, s@.len() as int), k as nat);
        }
    }
    if s.len() > 0 && s[0] == '-' {
        let rest = vstd::slice::slice_subrange(s, 1, s.len());
        match parse_ufixed_exec(rest, k, -lo) {
            Some(v) => -v,
            None => 0,
        }
    } else {
        match parse_ufixed_exec(s, k, hi) {
            Some(v) => v,
            None => 0,
        }
    }
}

// ---------------------------------------------------------------------------
// Colors
// ---------------------------------------------------------------------------

/// `#rrggbb` for an opaque color, `#aarrggbb` otherwise
pub open spec fn argb_str(c: u32) -> Seq<char> {
    if c / 0x100_0000 == 0xff {
        seq!['#'] + hex_digits((c % 0x100_0000) as nat, 6)
    } else {
        seq!['#'] + hex_digits(c as nat, 8)
    }
}

/// A color in `#rrggbb` (opaque) or `#aarrggbb` notation; anything else reads as 0
pub open spec fn parse_argb(s: Seq<char>) -> u32 {
    let h = s.subrange(1, s.len() as int);
    if s.len() == 7 && s[0] == '#' && all_hex_digits(h) {
        (0xff00_0000 + hex_value_of(h)) as u32
    } else if s.len() == 9 && s[0] == '#' && all_hex_digits(h) {
        hex_value_of(h) as u32
    } else {
        0
    }
}

pub fn push_argb(out: &mut Vec<char>, c: u32)
    ensures
        final(out)@ == old(out)@ + argb_str(c),
{
    out.push('#');
    if c / 0x100_0000 == 0xff {
        push_hex(out, (c % 0x100_0000) as u64, 6);
    } else {
        push_hex(out, c as u64, 8);
    }
    assert(out@ =~= old(out)@ + argb_str(c));
}

proof fn lemma_hex_value_bound(s: Seq<char>)
    requires
        all_hex_digits(s),
    ensures
        hex_value_of(s) < pow16(s.len()),
    decreases s.len(),
{
    if s.len() > 0 {
        let init = s.drop_last();
        assert(all_hex_digits(init)) by {
            assert forall|i: int| 0 <= i < init.len() implies is_hex_digit(#[trigger] init[i]) by {
                assert(init[i] == s[i]);
            }
        }
        lemma_hex_value_bound(init);
        assert(is_hex_digit(s[s.len() - 1]));
    }
}

pub open spec fn pow16(m: nat) -> nat
    decreases m,
{
    if m == 0 {
        1
    } else {
        16 * pow16((m - 1) as nat)
    }
}

pub fn parse_argb_exec(s: &[char]) -> (r: u32)
    ensures
        r == parse_argb(s@),
{
    if (s.len() == 7 || s.len() == 9) && s[0] == '#' {
        let h = vstd::slice::slice_subrange(s, 1, s.len());
        proof {
            reveal_with_fuel(pow16, 9);
            if all_hex_digits(h@) {
                lemma_hex_value_bound(h@);
            }
        }
        match parse_hex_digits(h) {
            Some(v) => {
                if s.len() == 7 {
                    (0xff00_0000u64 + v) as u32
                } else {
                    v as u32
                }
            },
            None => 0,
        }
    } else {
        0
    }
}

// ---------------------------------------------------------------------------
// Reading back what was written
// ---------------------------------------------------------------------------

/// The decimal notation of `n` is a nonempty string of digits whose value is `n`
pub proof fn lemma_dec_digits(n: nat)
    ensures
        dec_digits(n).len() >= 1,
        all_digits(dec_digits(n)),
        dec_value(dec_digits(n)) == n,
    decreases n,
{
    let s = dec_digits(n);
    if n >= 10 {
        lemma_dec_digits(n / 10);
        let init = dec_digits(n / 10);
        assert(s.drop_last() =~= init);
        assert(s.last() == digit_char((n % 10) as int));
        assert(digit_value(digit_char((n % 10) as int)) == n % 10);
        assert(dec_value(s) == dec_value(init) * 10 + n % 10);
        assert(n == (n / 10) * 10 + n % 10);
        assert(dec_value(s) == n);
        assert forall|i: int| 0 <= i < s.len() implies is_digit(#[trigger] s[i]) by {
            if i < init.len() {
                assert(s[i] == init[i]);
            }
        }
    } else {
        assert(s.drop_last() =~= Seq::<char>::empty());
        assert(digit_value(digit_char(n as int)) == n);
        assert(dec_value(s.drop_last()) == 0);
        assert(dec_value(s) == n);
    }
}

/// A string of digits lacks every character that is not a digit
pub proof fn lemma_digits_lack(s: Seq<char>, c: char)
    requires
        all_digits(s),
        !is_digit(c),
    ensures
        !s.contains(c),
{
    if s.contains(c) {
        let i = choose|i: int| 0 <= i < s.len() && s[i] == c;
        assert(is_digit(s[i]));
    }
}

/// A string of hexadecimal digits lacks every character that is not one
pub proof fn lemma_hex_digits_lack(s: Seq<char>, c: char)
    requires
        all_hex_digits(s),
        !is_hex_digit(c),
    ensures
        !s.contains(c),
{
    if s.contains(c) {
        let i = choose|i: int| 0 <= i < s.len() && s[i] == c;
        assert(is_hex_digit(s[i]));
    }
}

/// The decimal notation of `n` reads back as `n`
pub proof fn lemma_parse_dec(n: nat)
    requires
        n <= int_limit(),
    ensures
        parse_int(dec_digits(n)) == Some(n as int),
{
    lemma_dec_digits(n);
    let s = dec_digits(n);
    assert(is_digit(s[0]));
    if s.len() >= 2 {
        assert(is_digit(s[1]));
    }
}

/// The decimal notation of `v` reads back as `v`
pub proof fn lemma_parse_int_str(v: int)
    requires
        -int_limit() <= v <= int_limit(),
    ensures
        parse_int(int_str(v)) == Some(v),
{
    if v < 0 {
        lemma_dec_digits((-v) as nat);
        lemma_parse_dec((-v) as nat);
        let s = int_str(v);
        assert(s.subrange(1, s.len() as int) =~= dec_digits((-v) as nat));
    } else {
        lemma_parse_dec(v as nat);
    }
}

/// The hexadecimal notation of `n` is a nonempty string of hexadecimal
/// digits whose value is `n`, of exactly `width` digits when `n` fits
pub proof fn lemma_hex_digits(n: nat, width: nat)
    ensures
        hex_digits(n, width).len() >= 1,
        all_hex_digits(hex_digits(n, width)),
        hex_value_of(hex_digits(n, width)) == n,
        width >= 1 && n < pow16(width) ==> hex_digits(n, width).len() == width,
    decreases n + width,
{
    let s = hex_digits(n, width);
    if !(n < 16 && width <= 1) {
        let w2: nat = if width > 0 {
            (width - 1) as nat
        } else {
            0
        };
        lemma_hex_digits(n / 16, w2);
        let init = hex_digits(n / 16, w2);
        assert(s.drop_last() =~= init);
        let d = (n % 16) as int;
        assert(s.last() == hex_char(d));
        assert(hex_value(hex_char(d)) == d);
        assert(hex_value_of(s) == hex_value_of(init) * 16 + d);
        assert(n == (n / 16) * 16 + d);
        assert(hex_value_of(s) == n);
        assert forall|i: int| 0 <= i < s.len() implies is_hex_digit(#[trigger] s[i]) by {
            if i < init.len() {
                assert(s[i] == init[i]);
            }
        }
        if width >= 1 && n < pow16(width) {
            assert(width >= 2) by {
                if width == 1 {
                    reveal_with_fuel(pow16, 2);
                }
            }
            assert(n / 16 < pow16(w2)) by (nonlinear_arith)
                requires
                    n < pow16(width),
                    pow16(width) == 16 * pow16(w2),
            ;
        }
    } else {
        reveal_with_fuel(pow16, 2);
        assert(hex_value(hex_char(n as int)) == n);
        assert(s.drop_last() =~= Seq::<char>::empty());
        assert(hex_value_of(s.drop_last()) == 0);
        assert(hex_value_of(s) == n);
    }
}

/// `0x` followed by the hexadecimal notation of `n` reads back as `n`
pub proof fn lemma_parse_hex(n: nat, width: nat)
    requires
        n <= int_limit(),
    ensures
        parse_int(seq!['0', 'x'] + hex_digits(n, width)) == Some(n as int),
{
    lemma_hex_digits(n, width);
    let s = seq!['0', 'x'] + hex_digits(n, width);
    assert(s.subrange(2, s.len() as int) =~= hex_digits(n, width));
}

/// A color's notation reads back as the color
pub proof fn lemma_parse_argb(c: u32)
    ensures
        parse_argb(argb_str(c)) == c,
{
    reveal_with_fuel(pow16, 9);
    let s = argb_str(c);
    if c / 0x100_0000 == 0xff {
        let n = (c % 0x100_0000) as nat;
        lemma_hex_digits(n, 6);
        assert(s.subrange(1, s.len() as int) =~= hex_digits(n, 6));
    } else {
        lemma_hex_digits(c as nat, 8);
        assert(s.subrange(1, s.len() as int) =~= hex_digits(c as nat, 8));
    }
}

/// Prepending a digit adds its value times the place value
proof fn lemma_dec_value_prepend(d: char, t: Seq<char>)
    requires
        is_digit(d),
        all_digits(t),
    ensures
        dec_value(seq![d] + t) == digit_value(d) * pow10(t.len()) + dec_value(t),
    decreases t.len(),
{
    let u = seq![d] + t;
    assert(digit_value(d) >= 0);
    if t.len() == 0 {
        assert(u.drop_last() =~= Seq::<char>::empty());
        assert(dec_value(Seq::<char>::empty()) == 0);
        assert(pow10(0) == 1);
        assert(dec_value(u) == digit_value(d));
        assert(t =~= Seq::<char>::empty());
    } else {
        let init = t.drop_last();
        assert(all_digits(init)) by {
            assert forall|i: int| 0 <= i < init.len() implies is_digit(#[trigger] init[i]) by {
                assert(init[i] == t[i]);
            }
        }
        lemma_dec_value_prepend(d, init);
        assert(u.drop_last() =~= seq![d] + init);
        assert(u.last() == t.last());
        assert(is_digit(t[t.len() - 1]));
        let a = digit_value(d);
        let p = pow10(init.len()) as int;
        let b = dec_value(init) as int;
        let c = digit_value(t.last());
        assert(c >= 0);
        assert(dec_value(u) == dec_value(u.drop_last()) * 10 + c);
        assert(dec_value(t) == b * 10 + c);
        assert(pow10(t.len()) == 10 * p);
        assert((a * p + b) * 10 + c == a * (10 * p) + (b * 10 + c)) by (nonlinear_arith);
    }
}

/// The fraction digits of `f / 2^k`: their value is the fraction exactly,
/// when `f * 10^n` is a multiple of `2^k`
proof fn lemma_frac_digits(f: nat, k: nat, n: nat)
    requires
        k <= 8,
        f < pow2(k),
        (f * pow10(n)) as int % (pow2(k) as int) == 0,
    ensures
        frac_digits(f, k, n).len() <= n,
        all_digits(frac_digits(f, k, n)),
        dec_value(frac_digits(f, k, n)) * pow2(k) == f * pow10(frac_digits(f, k, n).len()),
    decreases n,
{
    lemma_pow2_small(k);
    let p = pow2(k) as int;
    if n == 0 || f == 0 {
        assert(frac_digits(f, k, n) =~= Seq::<char>::empty());
        assert(dec_value(Seq::<char>::empty()) == 0);
        assert(pow10(0) == 1);
        if n == 0 {
            assert(f * pow10(0) == f) by (nonlinear_arith)
                requires
                    pow10(0) == 1,
            ;
            vstd::arithmetic::div_mod::lemma_small_mod(f, p as nat);
        }
        assert(0 * pow2(k) == 0);
        assert(f * pow10(0) == 0) by (nonlinear_arith)
            requires
                pow10(0) == 1,
                f == 0,
        ;
    } else {
        let fi = f as int;
        let d = (fi * 10) / p;
        let f2 = (fi * 10) % p;
        vstd::arithmetic::div_mod::lemma_fundamental_div_mod(fi * 10, p);
        lemma_mod_range(fi * 10, p);
        assert(0 <= d < 10) by (nonlinear_arith)
            requires
                0 <= fi < p,
                fi * 10 == p * d + f2,
                0 <= f2 < p,
        ;
        let q = pow10((n - 1) as nat) as int;
        vstd::arithmetic::div_mod::lemma_fundamental_div_mod((f * pow10(n)) as int, p);
        vstd::arithmetic::div_mod::lemma_fundamental_div_mod(fi * 10, p);
        let c = (f * pow10(n)) as int / p;
        assert(f2 * q == (c - d * q) * p) by (nonlinear_arith)
            requires
                f * pow10(n) == p * c,
                pow10(n) == 10 * q,
                f * 10 == p * d + f2,
        ;
        vstd::arithmetic::div_mod::lemma_mod_multiples_basic(c - d * q, p);
        lemma_frac_digits(f2 as nat, k, (n - 1) as nat);
        let t = frac_digits(f2 as nat, k, (n - 1) as nat);
        let dc = digit_char(d);
        assert(digit_value(dc) == d);
        lemma_dec_value_prepend(dc, t);
        let u = frac_digits(f, k, n);
        assert(u == seq![dc] + t);
        assert forall|i: int| 0 <= i < u.len() implies is_digit(#[trigger] u[i]) by {
            if i > 0 {
                assert(u[i] == t[i - 1]);
            }
        }
        let l = pow10(t.len()) as int;
        let dt = dec_value(t) as int;
        assert((d * l + dt) * p == f * (10 * l)) by (nonlinear_arith)
            requires
                dt * p == f2 * l,
                f * 10 == p * d + f2,
        ;
    }
}

proof fn lemma_pow10_multiple(k: nat)
    requires
        k <= 8,
    ensures
        pow10(k) % pow2(k) == 0,
{
    reveal_with_fuel(pow10, 9);
    reveal_with_fuel(pow2, 9);
    if k == 0 {
        assert(pow10(0) == 1 && pow2(0) == 1);
        assert(1nat % 1nat == 0);
    } else if k == 1 {
        assert(pow10(1) == 10 && pow2(1) == 2);
        assert(10nat % 2nat == 0);
    } else if k == 2 {
        assert(pow10(2) == 100 && pow2(2) == 4);
        assert(100nat % 4nat == 0);
    } else if k == 3 {
        assert(pow10(3) == 1000 && pow2(3) == 8);
        assert(1000nat % 8nat == 0);
    } else if k == 4 {
        assert(pow10(4) == 10000 && pow2(4) == 16);
        assert(10000nat % 16nat == 0);
    } else if k == 5 {
        assert(pow10(5) == 100000 && pow2(5) == 32);
        assert(100000nat % 32nat == 0);
    } else if k == 6 {
        assert(pow10(6) == 1000000 && pow2(6) == 64);
        assert(1000000nat % 64nat == 0);
    } else if k == 7 {
        assert(pow10(7) == 10000000 && pow2(7) == 128);
        assert(10000000nat % 128nat == 0);
    } else {
        assert(pow10(8) == 100000000 && pow2(8) == 256);
        assert(100000000nat % 256nat == 0);
    }
}

proof fn lemma_mod_range(x: int, d: int)
    requires
        0 < d,
    ensures
        0 <= x % d < d,
{
}

/// The unsigned fixed point notation of `m / 2^k` reads back as `m`
proof fn lemma_ufixed_roundtrip(m: nat, k: nat)
    requires
        k <= 8,
    ensures
        ({
            let p = pow2(k) as int;
            let f = (m as int % p) as nat;
            let s = dec_digits((m as int / p) as nat) + if f == 0 {
                Seq::<char>::empty()
            } else {
                seq!['.'] + frac_digits(f, k, k)
            };
            parse_ufixed(s, k) == Some(m as int) && s.len() >= 1 && is_digit(s[0])
        }),
{
    lemma_pow2_small(k);
    let p = pow2(k) as int;
    let q = (m as int / p) as nat;
    let f = (m as int % p) as nat;
    let ds = dec_digits(q);
    lemma_dec_digits(q);
    let tail = if f == 0 {
        Seq::<char>::empty()
    } else {
        seq!['.'] + frac_digits(f, k, k)
    };
    let s = ds + tail;
    assert(is_digit(ds[0]));
    assert(s[0] == ds[0]);
    assert forall|j: int| 0 <= j < ds.len() implies s[j] != '.' by {
        assert(s[j] == ds[j]);
        assert(is_digit(ds[j]));
    }
    lemma_first_index(s, '.', ds.len() as int);
    assert(int_part(s) =~= ds);
    vstd::arithmetic::div_mod::lemma_fundamental_div_mod(m as int, p);
    if f == 0 {
        assert(s =~= ds);
        assert(frac_part(s) =~= Seq::<char>::empty());
        assert(frac8(s) =~= Seq::<char>::empty());
        assert(pow10(0) == 1);
        assert(all_digits(Seq::<char>::empty()));
        assert((q * 1 + 0) * p / 1 == q * p) by (nonlinear_arith);
        assert(q * p == m) by (nonlinear_arith)
            requires
                m == p * q + 0,
        ;
    } else {
        lemma_pow10_multiple(k);
        vstd::arithmetic::div_mod::lemma_fundamental_div_mod(pow10(k) as int, p);
        let c = pow10(k) as int / p;
        vstd::arithmetic::div_mod::lemma_mod_multiples_basic(f * c, p);
        assert(f * pow10(k) == (f * c) * p) by (nonlinear_arith)
            requires
                pow10(k) == p * c + 0,
        ;
        lemma_frac_digits(f, k, k);
        let fd = frac_digits(f, k, k);
        assert(s.subrange(ds.len() as int + 1, s.len() as int) =~= fd);
        assert(frac_part(s) =~= fd);
        assert(frac8(s) =~= fd);
        let l = pow10(fd.len()) as int;
        lemma_pow10_pos(fd.len());
        let dd = dec_value(fd) as int;
        assert((q * l + dd) * p == (q * p + f) * l) by (nonlinear_arith)
            requires
                dd * p == f * l,
        ;
        vstd::arithmetic::div_mod::lemma_div_multiples_vanish(q * p + f, l);
        assert(l * (q * p + f) == (q * p + f) * l) by (nonlinear_arith);
        assert(q * p + f == m) by (nonlinear_arith)
            requires
                m == p * q + f,
        ;
    }
}

/// The fixed point notation of `v / 2^k` reads back as `v`
pub proof fn lemma_fixed_roundtrip(v: int, k: nat, lo: int, hi: int)
    requires
        k <= 8,
        lo <= v <= hi,
    ensures
        fixed_value(fixed_str(v, k), k, lo, hi) == v,
{
    let m: nat = if v < 0 {
        (-v) as nat
    } else {
        v as nat
    };
    lemma_ufixed_roundtrip(m, k);
    let s = fixed_str(v, k);
    let p = pow2(k) as int;
    let f = (m as int % p) as nat;
    let u = dec_digits((m as int / p) as nat) + if f == 0 {
        Seq::<char>::empty()
    } else {
        seq!['.'] + frac_digits(f, k, k)
    };
    if v < 0 {
        assert(s =~= seq!['-'] + u);
        assert(s.subrange(1, s.len() as int) =~= u);
    } else {
        assert(s =~= u);
    }
}

/// The fixed point notation of a number holds digits, `.` and `-` only
pub proof fn lemma_fixed_str_chars(v: int, k: nat, c: char)
    requires
        k <= 8,
        !is_digit(c),
        c != '.',
        c != '-',
    ensures
        !fixed_str(v, k).contains(c),
{
    lemma_pow2_small(k);
    let m: int = if v < 0 {
        -v
    } else {
        v
    };
    let p = pow2(k) as int;
    let f = (m % p) as nat;
    let q = (m / p) as nat;
    lemma_dec_digits(q);
    let s = fixed_str(v, k);
    let ds = dec_digits(q);
    let sign = if v < 0 {
        seq!['-']
    } else {
        Seq::<char>::empty()
    };
    if f != 0 {
        assert(f < p) by (nonlinear_arith)
            requires
                p >= 1,
                f == m % p,
        ;
        lemma_frac_chars(f, k, k);
    }
    if s.contains(c) {
        let i = choose|i: int| 0 <= i < s.len() && s[i] == c;
        if i < sign.len() {
        } else if i < sign.len() + ds.len() {
            assert(s[i] == ds[i - sign.len()]);
            assert(is_digit(ds[i - sign.len()]));
        } else if i == sign.len() + ds.len() {
        } else {
            let fd = frac_digits(f, k, k);
            assert(s[i] == fd[i - sign.len() - ds.len() - 1]);
        }
    }
}

proof fn lemma_frac_chars(f: nat, k: nat, n: nat)
    requires
        k <= 8,
        f < pow2(k),
    ensures
        all_digits(frac_digits(f, k, n)),
    decreases n,
{
    lemma_pow2_small(k);
    if n > 0 && f > 0 {
        let p = pow2(k) as int;
        let f2 = ((f as int * 10) % p) as nat;
        let d = (f as int * 10) / p;
        vstd::arithmetic::div_mod::lemma_fundamental_div_mod(f as int * 10, p);
        lemma_mod_range(f as int * 10, p);
        assert(0 <= d < 10) by (nonlinear_arith)
            requires
                0 <= f < p,
                f * 10 == p * d + f2,
                0 <= f2 < p,
        ;
        lemma_frac_chars(f2, k, (n - 1) as nat);
        let t = frac_digits(f2, k, (n - 1) as nat);
        let u = frac_digits(f, k, n);
        assert(u == seq![digit_char(d)] + t);
        assert forall|i: int| 0 <= i < u.len() implies is_digit(#[trigger] u[i]) by {
            if i > 0 {
                assert(u[i] == t[i - 1]);
            }
        }
    }
}

/// A fixed point value read into a field is within the field's range
pub proof fn lemma_fixed_value_range(s: Seq<char>, k: nat, lo: int, hi: int)
    requires
        lo <= 0 <= hi,
    ensures
        lo <= fixed_value(s, k, lo, hi) <= hi,
{
}

} // verus!
