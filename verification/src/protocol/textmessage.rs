//! Text messages: a user ID, a message name, `key=value` arguments and, for
//! brush dab messages, a list of dabs, each a list of number tokens. How a
//! text message is written as text is in the `textform` module.
//!
//! Arguments keep the order in which they were first set; setting a key
//! again replaces its value, and an empty value is not stored. Values are
//! read back as numbers, colors (`#rrggbb` or `#aarrggbb`), flag names,
//! base64 bytes and comma separated lists.
use super::pieces::{all_lack, join_with, lemma_split_join, lemma_split_single, split_on, split_ranges};
use super::base64::{base64_decode, base64_decode_exec, base64_encode, base64_encode_exec, valid_base64};
use super::textfmt::{
    argb_str, chars_eq, chars_to_string, dec_digits, hex_digits, int_limit, int_str,
    lemma_dec_digits, lemma_digits_lack, lemma_hex_digits, lemma_hex_digits_lack, lemma_parse_dec,
    lemma_parse_hex, lemma_parse_int_str, fixed_str, fixed_value, fixed_value_exec, push_fixed,
    parse_argb, parse_argb_exec, parse_int, parse_int_exec, push_argb, push_dec,
    push_hex, push_int, push_str_chars, str_chars,
};
use vstd::arithmetic::div_mod::{lemma_basic_div, lemma_mod_breakdown};
use vstd::arithmetic::power2::{
    lemma2_to64, lemma_pow2_pos, lemma_pow2_strictly_increases, lemma_pow2_unfold, pow2,
};
use vstd::bits::{lemma_u8_pow2_no_overflow, lemma_u8_shl_is_mul, lemma_u8_shr_is_div};
use vstd::prelude::*;

verus! {

/// Arguments as (key, value) character sequences
pub type ArgsView = Seq<(Seq<char>, Seq<char>)>;

/// Dabs as sequences of character sequences
pub type DabsView = Seq<Seq<Seq<char>>>;

/// The character sequences of stored arguments
pub open spec fn args_of(v: Seq<(String, String)>) -> ArgsView {
    Seq::new(v.len(), |i: int| (v[i].0@, v[i].1@))
}

/// The character sequences of stored dabs
pub open spec fn dabs_of(v: Seq<Vec<String>>) -> DabsView {
    Seq::new(v.len(), |i: int| Seq::new(v[i]@.len(), |j: int| v[i]@[j]@))
}

/// A message in its text form, as parsed or before it is written
pub struct TextMessage {
    pub user_id: u8,
    pub name: String,
    pub args: Vec<(String, String)>,
    pub dabs: Vec<Vec<String>>,
}

/// Index of the first argument with the given key, or the number of
/// arguments when there is none
pub open spec fn key_index(args: ArgsView, key: Seq<char>) -> int
    decreases args.len(),
{
    if args.len() == 0 {
        0
    } else if args[0].0 == key {
        0
    } else {
        1 + key_index(args.drop_first(), key)
    }
}

/// Setting an argument: an empty value leaves the arguments unchanged, an
/// existing key gets the new value, a new key is added at the end
pub open spec fn args_set(args: ArgsView, key: Seq<char>, value: Seq<char>) -> ArgsView {
    if value.len() == 0 {
        args
    } else if key_index(args, key) < args.len() {
        args.update(key_index(args, key), (key, value))
    } else {
        args.push((key, value))
    }
}

/// The value of an argument; empty when there is no such argument
pub open spec fn args_get(args: ArgsView, key: Seq<char>) -> Seq<char> {
    if key_index(args, key) < args.len() {
        args[key_index(args, key)].1
    } else {
        Seq::empty()
    }
}

/// Names of the set bits of `value` (bit `i` is named `names[i]`), separated by commas
pub open spec fn flags_str(names: Seq<Seq<char>>, value: u8) -> Seq<char> {
    join_with(flag_names_set(names, value, names.len() as int), ',')
}

/// The names of the set bits among the first `n`
pub open spec fn flag_names_set(names: Seq<Seq<char>>, value: u8, n: int) -> Seq<Seq<char>>
    decreases n,
{
    if n <= 0 {
        Seq::empty()
    } else if bit_set(value, n - 1) {
        flag_names_set(names, value, n - 1).push(names[n - 1])
    } else {
        flag_names_set(names, value, n - 1)
    }
}

/// Whether bit `i` of `value` is set
pub open spec fn bit_set(value: u8, i: int) -> bool {
    (value as nat / pow2(i as nat)) % 2 == 1
}

/// Flags read from a comma separated list of names: bit `i` is set when
/// `names[i]` is in the list (for the first eight names)
pub open spec fn parse_flags(names: Seq<Seq<char>>, s: Seq<char>) -> u8 {
    flags_from(names, split_on(s, ','), if names.len() < 8 {
        names.len() as int
    } else {
        8
    })
}

pub open spec fn flags_from(names: Seq<Seq<char>>, pieces: Seq<Seq<char>>, n: int) -> u8
    decreases n,
{
    if n <= 0 {
        0
    } else {
        (flags_from(names, pieces, n - 1) + if pieces.contains(names[n - 1]) {
            pow2((n - 1) as nat)
        } else {
            0
        }) as u8
    }
}

/// Decimal numbers separated by commas
pub open spec fn u8_list_str(v: Seq<u8>) -> Seq<char> {
    join_with(Seq::new(v.len(), |i: int| dec_digits(v[i] as nat)), ',')
}

/// `0x` followed by four hexadecimal digits
pub open spec fn hex16_str(v: u16) -> Seq<char> {
    seq!['0', 'x'] + hex_digits(v as nat, 4)
}

/// 16 bit numbers separated by commas, in hexadecimal or decimal notation
pub open spec fn u16_list_str(v: Seq<u16>, hex: bool) -> Seq<char> {
    join_with(u16_pieces(v, hex), ',')
}

/// The notation of each 16 bit number
pub open spec fn u16_pieces(v: Seq<u16>, hex: bool) -> Seq<Seq<char>> {
    if hex {
        Seq::new(v.len(), |i: int| hex16_str(v[i]))
    } else {
        Seq::new(v.len(), |i: int| dec_digits(v[i] as nat))
    }
}

/// The numbers in range `0..=max` among the comma separated pieces (others are skipped)
pub open spec fn parse_num_list(s: Seq<char>, max: int) -> Seq<int> {
    let pieces = split_on(s, ',');
    pieces.filter(|p: Seq<char>| parse_int(p) matches Some(v) && 0 <= v <= max).map_values(
        |p: Seq<char>| parse_int(p)->0,
    )
}

/// An unsigned number in range `0..=max`; anything else reads as 0
pub open spec fn parse_num(s: Seq<char>, max: int) -> int {
    match parse_int(s) {
        Some(v) => if 0 <= v <= max {
            v
        } else {
            0
        },
        None => 0,
    }
}

/// A 32 bit number: values in range `-2^31..2^32` are taken modulo 2^32
/// (so that negative numbers read back as the same signed value), anything
/// else reads as 0
pub open spec fn parse_u32(s: Seq<char>) -> u32 {
    match parse_int(s) {
        Some(v) => if 0 <= v < 0x1_0000_0000 {
            v as u32
        } else if -0x8000_0000 <= v < 0 {
            (v + 0x1_0000_0000) as u32
        } else {
            0
        },
        None => 0,
    }
}

/// Bytes written in base64; anything that is not valid base64 reads as no bytes
pub open spec fn parse_bytes(s: Seq<char>) -> Seq<u8> {
    if valid_base64(s) {
        base64_decode(s)
    } else {
        Seq::empty()
    }
}

impl TextMessage {
    pub open spec fn args_view(&self) -> ArgsView {
        args_of(self.args@)
    }

    pub open spec fn dabs_view(&self) -> DabsView {
        dabs_of(self.dabs@)
    }

    /// A message with no arguments and no dabs
    pub fn new(user_id: u8, name: &str) -> (m: TextMessage)
        ensures
            m.user_id == user_id,
            m.name@ == name@,
            m.args_view() == Seq::<(Seq<char>, Seq<char>)>::empty(),
            m.dabs_view() == DabsView::empty(),
    {
        let m = TextMessage {
            user_id,
            name: String::from_str(name),
            args: Vec::new(),
            dabs: Vec::new(),
        };
        assert(m.args_view() =~= Seq::<(Seq<char>, Seq<char>)>::empty());
        assert(m.dabs_view() =~= DabsView::empty());
        m
    }

    fn find_key(&self, key: &str) -> (r: usize)
        ensures
            r == key_index(self.args_view(), key@),
            r <= self.args@.len(),
    {
        let k = String::from_str(key);
        let mut i: usize = 0;
        while i < self.args.len()
            invariant
                i <= self.args@.len(),
                k@ == key@,
                forall|j: int| 0 <= j < i ==> self.args@[j].0@ != key@,
            decreases self.args@.len() - i,
        {
            if self.args[i].0 == k {
                proof {
                    lemma_key_index(self.args_view(), key@, i as int);
                }
                return i;
            }
            i += 1;
        }
        proof {
            lemma_key_index(self.args_view(), key@, i as int);
        }
        i
    }

    /// Set an argument (an empty value is not stored)
    pub fn set(self, key: &str, value: String) -> (m: TextMessage)
        ensures
            m.user_id == self.user_id,
            m.name@ == self.name@,
            m.dabs_view() == self.dabs_view(),
            m.args_view() == args_set(self.args_view(), key@, value@),
    {
        let mut m = self;
        if value.as_str().is_empty() {
            return m;
        }
        let i = m.find_key(key);
        let ghost before = m.args_view();
        if i < m.args.len() {
            m.args.set(i, (String::from_str(key), value));
        } else {
            m.args.push((String::from_str(key), value));
        }
        assert(m.args_view() =~= args_set(before, key@, value@));
        m
    }

    /// The value of an argument, or an empty string
    pub fn get_str(&self, key: &str) -> (s: String)
        ensures
            s@ == args_get(self.args_view(), key@),
    {
        let i = self.find_key(key);
        if i < self.args.len() {
            self.args[i].1.clone()
        } else {
            String::new()
        }
    }

    /// Set an argument to a list of flag names
    pub fn set_flags(self, key: &str, names: &[&str], value: u8) -> (m: TextMessage)
        ensures
            m.user_id == self.user_id,
            m.name@ == self.name@,
            m.dabs_view() == self.dabs_view(),
            m.args_view() == args_set(
                self.args_view(),
                key@,
                flags_str(names_view(names@), value),
            ),
    {
        let mut out: Vec<char> = Vec::new();
        let mut count: usize = 0;
        let mut i: usize = 0;
        while i < names.len()
            invariant
                i <= names@.len(),
                out@ == join_with(flag_names_set(names_view(names@), value, i as int), ','),
                count == flag_names_set(names_view(names@), value, i as int).len(),
            decreases names@.len() - i,
        {
            proof {
                lemma_flag_names_len(names_view(names@), value, i as int);
            }
            if i < 8 && (value >> (i as u8)) & 1 == 1 {
                proof {
                    lemma_bit(value, i as int);
                }
                if count > 0 {
                    out.push(',');
                }
                push_str_chars(&mut out, names[i]);
                count += 1;
                proof {
                    let l = flag_names_set(names_view(names@), value, i + 1);
                    assert(l.drop_last() =~= flag_names_set(names_view(names@), value, i as int));
                }
            } else {
                proof {
                    lemma_bit(value, i as int);
                }
            }
            i += 1;
        }
        let s = chars_to_string(out.as_slice());
        self.set(key, s)
    }

    /// The flags named by an argument
    pub fn get_flags(&self, names: &[&str], key: &str) -> (r: u8)
        ensures
            r == parse_flags(names_view(names@), args_get(self.args_view(), key@)),
    {
        let v = self.get_str(key);
        let chars = str_chars(v.as_str());
        let ranges = split_ranges(chars.as_slice(), ',');
        let n: usize = if names.len() < 8 {
            names.len()
        } else {
            8
        };
        let ghost pieces = split_on(chars@, ',');
        let mut r: u8 = 0;
        let mut i: usize = 0;
        proof {
            lemma2_to64();
        }
        while i < n
            invariant
                i <= n <= 8,
                n <= names@.len(),
                pieces == split_on(chars@, ','),
                ranges@.len() == pieces.len(),
                forall|k: int|
                    #![trigger ranges@[k]]
                    0 <= k < ranges@.len() ==> ranges@[k].0 <= ranges@[k].1 <= chars@.len()
                        && pieces[k] == chars@.subrange(ranges@[k].0 as int, ranges@[k].1 as int),
                r == flags_from(names_view(names@), pieces, i as int),
                r < pow2(i as nat),
            decreases n - i,
        {
            let name = str_chars(names[i]);
            let found = contains_piece(chars.as_slice(), &ranges, name.as_slice());
            proof {
                let nv = names_view(names@);
                lemma_pow2_unfold((i + 1) as nat);
                lemma2_to64();
                if i + 1 < 8 {
                    lemma_pow2_strictly_increases((i + 1) as nat, 8);
                }
                lemma_shl_pow2(i as int);
                assert(nv[i as int] == name@);
                if found {
                    let k = choose|k: int|
                        #![trigger ranges@[k]]
                        0 <= k < ranges@.len() && chars@.subrange(
                            ranges@[k].0 as int,
                            ranges@[k].1 as int,
                        ) == name@;
                    assert(pieces[k] == nv[i as int]);
                    assert(pieces.contains(nv[i as int]));
                } else if pieces.contains(nv[i as int]) {
                    let k = choose|k: int| 0 <= k < pieces.len() && pieces[k] == nv[i as int];
                    assert(ranges@[k].0 <= ranges@[k].1);
                    assert(false);
                }
            }
            if found {
                r = r + (1u8 << (i as u8));
            }
            i += 1;
        }
        r
    }

    /// Set an argument to a color
    pub fn set_argb32(self, key: &str, color: u32) -> (m: TextMessage)
        ensures
            m.user_id == self.user_id,
            m.name@ == self.name@,
            m.dabs_view() == self.dabs_view(),
            m.args_view() == args_set(self.args_view(), key@, argb_str(color)),
    {
        let mut out: Vec<char> = Vec::new();
        push_argb(&mut out, color);
        let s = chars_to_string(out.as_slice());
        self.set(key, s)
    }

    /// The color in an argument
    pub fn get_argb32(&self, key: &str) -> (r: u32)
        ensures
            r == parse_argb(args_get(self.args_view(), key@)),
    {
        let v = self.get_str(key);
        let chars = str_chars(v.as_str());
        parse_argb_exec(chars.as_slice())
    }

    /// Set an argument to bytes in base64
    pub fn set_bytes(self, key: &str, value: &[u8]) -> (m: TextMessage)
        ensures
            m.user_id == self.user_id,
            m.name@ == self.name@,
            m.dabs_view() == self.dabs_view(),
            m.args_view() == args_set(self.args_view(), key@, base64_encode(value@)),
    {
        let out = base64_encode_exec(value);
        let s = chars_to_string(out.as_slice());
        self.set(key, s)
    }

    /// The bytes in an argument
    pub fn get_bytes(&self, key: &str) -> (r: Vec<u8>)
        ensures
            r@ == parse_bytes(args_get(self.args_view(), key@)),
    {
        let v = self.get_str(key);
        let chars = str_chars(v.as_str());
        match base64_decode_exec(chars.as_slice()) {
            Some(b) => b,
            None => Vec::new(),
        }
    }

    /// Set an argument to a decimal number
    pub fn set_dec(self, key: &str, value: i64) -> (m: TextMessage)
        ensures
            m.user_id == self.user_id,
            m.name@ == self.name@,
            m.dabs_view() == self.dabs_view(),
            m.args_view() == args_set(self.args_view(), key@, int_str(value as int)),
    {
        let mut out: Vec<char> = Vec::new();
        push_int(&mut out, value);
        let s = chars_to_string(out.as_slice());
        self.set(key, s)
    }

    /// Set an argument to a 16 bit number in `0x` hexadecimal notation
    pub fn set_hex16(self, key: &str, value: u16) -> (m: TextMessage)
        ensures
            m.user_id == self.user_id,
            m.name@ == self.name@,
            m.dabs_view() == self.dabs_view(),
            m.args_view() == args_set(self.args_view(), key@, hex16_str(value)),
    {
        let mut out: Vec<char> = Vec::new();
        out.push('0');
        out.push('x');
        push_hex(&mut out, value as u64, 4);
        assert(out@ =~= hex16_str(value));
        let s = chars_to_string(out.as_slice());
        self.set(key, s)
    }

    /// Set an argument to the fixed point number `value / 2^k`
    pub fn set_fixed(self, key: &str, value: i64, k: u64) -> (m: TextMessage)
        requires
            k <= 8,
            value > i64::MIN,
        ensures
            m.user_id == self.user_id,
            m.name@ == self.name@,
            m.dabs_view() == self.dabs_view(),
            m.args_view() == args_set(self.args_view(), key@, fixed_str(value as int, k as nat)),
    {
        let mut out: Vec<char> = Vec::new();
        push_fixed(&mut out, value, k);
        let s = chars_to_string(out.as_slice());
        self.set(key, s)
    }

    /// A fixed point argument times 2^k, rounded toward zero and saturated to
    /// `lo..=hi`; 0 when it is not a number
    pub fn get_fixed(&self, key: &str, k: u64, lo: i64, hi: i64) -> (r: i64)
        requires
            k <= 8,
            -0x1_0000_0000 <= lo <= 0 <= hi <= 0x1_0000_0000,
        ensures
            r == fixed_value(args_get(self.args_view(), key@), k as nat, lo as int, hi as int),
    {
        let v = self.get_str(key);
        let chars = str_chars(v.as_str());
        fixed_value_exec(chars.as_slice(), k, lo, hi)
    }

    /// Replace the dabs
    pub fn set_dabs(self, dabs: Vec<Vec<String>>) -> (m: TextMessage)
        ensures
            m.user_id == self.user_id,
            m.name@ == self.name@,
            m.args_view() == self.args_view(),
            m.dabs_view() == dabs_of(dabs@),
    {
        TextMessage { user_id: self.user_id, name: self.name, args: self.args, dabs }
    }

    /// Set an argument to a boolean (`true` or `false`)
    pub fn set_bool(self, key: &str, value: bool) -> (m: TextMessage)
        ensures
            m.user_id == self.user_id,
            m.name@ == self.name@,
            m.dabs_view() == self.dabs_view(),
            m.args_view() == args_set(self.args_view(), key@, bool_str(value)),
    {
        let s = if value {
            String::from_str("true")
        } else {
            String::from_str("false")
        };
        self.set(key, s)
    }

    /// Whether an argument is `true`
    pub fn get_bool(&self, key: &str) -> (r: bool)
        ensures
            r <==> args_get(self.args_view(), key@) == "true"@,
    {
        let v = self.get_str(key);
        let chars = str_chars(v.as_str());
        let t = str_chars("true");
        chars_eq(chars.as_slice(), t.as_slice())
    }

    /// The number in an argument, if it is in range `0..=max`; 0 otherwise
    fn get_num(&self, key: &str, max: i64) -> (r: i64)
        requires
            0 <= max,
        ensures
            r == parse_num(args_get(self.args_view(), key@), max as int),
            0 <= r <= max,
    {
        let v = self.get_str(key);
        let chars = str_chars(v.as_str());
        match parse_int_exec(chars.as_slice()) {
            Some(x) => if 0 <= x && x <= max {
                x
            } else {
                0
            },
            None => 0,
        }
    }

    pub fn get_u8(&self, key: &str) -> (r: u8)
        ensures
            r == parse_num(args_get(self.args_view(), key@), 255),
    {
        self.get_num(key, 255) as u8
    }

    pub fn get_u16(&self, key: &str) -> (r: u16)
        ensures
            r == parse_num(args_get(self.args_view(), key@), 65535),
    {
        self.get_num(key, 65535) as u16
    }

    pub fn get_u32(&self, key: &str) -> (r: u32)
        ensures
            r == parse_u32(args_get(self.args_view(), key@)),
    {
        let v = self.get_str(key);
        let chars = str_chars(v.as_str());
        match parse_int_exec(chars.as_slice()) {
            Some(x) => if 0 <= x && x < 0x1_0000_0000 {
                x as u32
            } else if -0x8000_0000 <= x && x < 0 {
                (x + 0x1_0000_0000) as u32
            } else {
                0
            },
            None => 0,
        }
    }

    /// Set an argument to a comma separated list of decimal numbers
    pub fn set_vec_u8(self, key: &str, v: &[u8]) -> (m: TextMessage)
        ensures
            m.user_id == self.user_id,
            m.name@ == self.name@,
            m.dabs_view() == self.dabs_view(),
            m.args_view() == args_set(self.args_view(), key@, u8_list_str(v@)),
    {
        let mut out: Vec<char> = Vec::new();
        let mut i: usize = 0;
        while i < v.len()
            invariant
                i <= v@.len(),
                out@ == join_with(
                    Seq::new(i as nat, |j: int| dec_digits(v@[j] as nat)),
                    ',',
                ),
            decreases v@.len() - i,
        {
            if i > 0 {
                out.push(',');
            }
            push_dec(&mut out, v[i] as u64);
            i += 1;
            proof {
                let l = Seq::new(i as nat, |j: int| dec_digits(v@[j] as nat));
                assert(l.drop_last() =~= Seq::new((i - 1) as nat, |j: int| dec_digits(v@[j] as nat)));
            }
        }
        assert(Seq::new(v@.len(), |j: int| dec_digits(v@[j] as nat)) =~= Seq::new(
            i as nat,
            |j: int| dec_digits(v@[j] as nat),
        ));
        let s = chars_to_string(out.as_slice());
        self.set(key, s)
    }

    /// Set an argument to a comma separated list of 16 bit numbers
    pub fn set_vec_u16(self, key: &str, v: &[u16], hex: bool) -> (m: TextMessage)
        ensures
            m.user_id == self.user_id,
            m.name@ == self.name@,
            m.dabs_view() == self.dabs_view(),
            m.args_view() == args_set(self.args_view(), key@, u16_list_str(v@, hex)),
    {
        let ghost pieces = u16_pieces(v@, hex);
        let mut out: Vec<char> = Vec::new();
        let mut i: usize = 0;
        assert(pieces.take(0) =~= Seq::<Seq<char>>::empty());
        while i < v.len()
            invariant
                i <= v@.len(),
                pieces == u16_pieces(v@, hex),
                out@ == join_with(pieces.take(i as int), ','),
            decreases v@.len() - i,
        {
            proof {
                crate::protocol::pieces::lemma_join_take(pieces, i as int, ',');
            }
            if i > 0 {
                out.push(',');
            }
            if hex {
                out.push('0');
                out.push('x');
                push_hex(&mut out, v[i] as u64, 4);
            } else {
                push_dec(&mut out, v[i] as u64);
            }
            assert(out@ =~= join_with(pieces.take(i + 1), ','));
            i += 1;
        }
        assert(pieces.take(i as int) =~= pieces);
        let s = chars_to_string(out.as_slice());
        self.set(key, s)
    }

    /// The numbers of range `0..=255` in a comma separated list
    pub fn get_vec_u8(&self, key: &str) -> (r: Vec<u8>)
        ensures
            r@.len() == parse_num_list(args_get(self.args_view(), key@), 255).len(),
            forall|i: int|
                0 <= i < r@.len() ==> r@[i] == parse_num_list(args_get(self.args_view(), key@), 255)[i],
    {
        let l = self.get_num_list(key, 255);
        let mut out: Vec<u8> = Vec::new();
        let mut i: usize = 0;
        while i < l.len()
            invariant
                i <= l@.len(),
                forall|j: int| 0 <= j < l@.len() ==> 0 <= #[trigger] l@[j] <= 255,
                out@.len() == i,
                forall|j: int| 0 <= j < i ==> out@[j] == l@[j],
            decreases l@.len() - i,
        {
            out.push(l[i] as u8);
            i += 1;
        }
        out
    }

    /// The numbers of range `0..=65535` in a comma separated list
    pub fn get_vec_u16(&self, key: &str) -> (r: Vec<u16>)
        ensures
            r@.len() == parse_num_list(args_get(self.args_view(), key@), 65535).len(),
            forall|i: int|
                0 <= i < r@.len() ==> r@[i] == parse_num_list(args_get(self.args_view(), key@), 65535)[i],
    {
        let l = self.get_num_list(key, 65535);
        let mut out: Vec<u16> = Vec::new();
        let mut i: usize = 0;
        while i < l.len()
            invariant
                i <= l@.len(),
                forall|j: int| 0 <= j < l@.len() ==> 0 <= #[trigger] l@[j] <= 65535,
                out@.len() == i,
                forall|j: int| 0 <= j < i ==> out@[j] == l@[j],
            decreases l@.len() - i,
        {
            out.push(l[i] as u16);
            i += 1;
        }
        out
    }

    fn get_num_list(&self, key: &str, max: i64) -> (r: Vec<i64>)
        requires
            0 <= max,
        ensures
            r@.len() == parse_num_list(args_get(self.args_view(), key@), max as int).len(),
            forall|i: int|
                0 <= i < r@.len() ==> r@[i] == parse_num_list(
                    args_get(self.args_view(), key@),
                    max as int,
                )[i],
            forall|i: int| 0 <= i < r@.len() ==> 0 <= #[trigger] r@[i] <= max,
    {
        let v = self.get_str(key);
        let chars = str_chars(v.as_str());
        let ranges = split_ranges(chars.as_slice(), ',');
        let ghost pieces = split_on(chars@, ',');
        let ghost pred = |p: Seq<char>| parse_int(p) matches Some(x) && 0 <= x <= max;
        let ghost val = |p: Seq<char>| parse_int(p)->0;
        let mut out: Vec<i64> = Vec::new();
        let mut i: usize = 0;
        while i < ranges.len()
            invariant
                i <= ranges@.len(),
                0 <= max,
                pieces == split_on(chars@, ','),
                ranges@.len() == pieces.len(),
                forall|k: int|
                    #![trigger ranges@[k]]
                    0 <= k < ranges@.len() ==> ranges@[k].0 <= ranges@[k].1 <= chars@.len()
                        && pieces[k] == chars@.subrange(ranges@[k].0 as int, ranges@[k].1 as int),
                pred == (|p: Seq<char>| parse_int(p) matches Some(x) && 0 <= x <= max),
                val == (|p: Seq<char>| parse_int(p)->0),
                out@.map_values(|x: i64| x as int) =~= pieces.subrange(0, i as int).filter(
                    pred,
                ).map_values(val),
                forall|j: int| 0 <= j < out@.len() ==> 0 <= #[trigger] out@[j] <= max,
            decreases ranges@.len() - i,
        {
            let (a, b) = ranges[i];
            let piece = vstd::slice::slice_subrange(chars.as_slice(), a, b);
            let ghost before = out@;
            let ghost sub = pieces.subrange(0, i as int);
            proof {
                assert(pieces.subrange(0, i + 1) =~= sub.push(pieces[i as int]));
                sub.lemma_filter_push(pieces[i as int], pred);
            }
            let parsed = parse_int_exec(piece);
            let keep = match parsed {
                Some(x) => 0 <= x && x <= max,
                None => false,
            };
            if keep {
                let x = parsed.unwrap();
                out.push(x);
                proof {
                    before.lemma_push_map_commute(|x: i64| x as int, x);
                    sub.filter(pred).lemma_push_map_commute(val, pieces[i as int]);
                }
            }
            i += 1;
        }
        assert(pieces.subrange(0, pieces.len() as int) =~= pieces);
        proof {
            let l = pieces.filter(pred).map_values(val);
            assert forall|j: int| 0 <= j < out@.len() implies out@[j] == l[j] by {
                assert(out@.map_values(|x: i64| x as int)[j] == out@[j] as int);
            }
        }
        out
    }
}

/// The characters of each name
pub open spec fn names_view(names: Seq<&str>) -> Seq<Seq<char>> {
    Seq::new(names.len(), |i: int| names[i]@)
}

pub open spec fn bool_str(b: bool) -> Seq<char> {
    if b {
        "true"@
    } else {
        "false"@
    }
}

pub proof fn lemma_key_index(args: ArgsView, key: Seq<char>, i: int)
    requires
        0 <= i <= args.len(),
        forall|j: int| 0 <= j < i ==> args[j].0 != key,
        i < args.len() ==> args[i].0 == key,
    ensures
        key_index(args, key) == i,
    decreases args.len(),
{
    if args.len() > 0 && i > 0 {
        lemma_key_index(args.drop_first(), key, i - 1);
    }
}

proof fn lemma_flag_names_len(names: Seq<Seq<char>>, value: u8, n: int)
    ensures
        flag_names_set(names, value, n).len() <= if n < 0 {
            0
        } else {
            n
        },
    decreases n,
{
    if n > 0 {
        lemma_flag_names_len(names, value, n - 1);
    }
}

proof fn lemma_bit(value: u8, i: int)
    requires
        i >= 0,
    ensures
        (i < 8 && (value >> (i as u8)) & 1 == 1) <==> bit_set(value, i),
{
    if i < 8 {
        let k = i as u8;
        lemma_u8_shr_is_div(value, k);
        let x = value >> k;
        assert(x & 1 == 1 <==> x % 2 == 1) by (bit_vector);
    } else {
        lemma2_to64();
        if i > 8 {
            lemma_pow2_strictly_increases(8, i as nat);
        }
        lemma_basic_div(value as int, pow2(i as nat) as int);
    }
}

proof fn lemma_shl_pow2(i: int)
    requires
        0 <= i < 8,
    ensures
        (1u8 << (i as u8)) == pow2(i as nat),
{
    lemma_u8_pow2_no_overflow(i as nat);
    lemma_u8_shl_is_mul(1, i as u8);
}

/// Whether one of the pieces `s[ranges[k]]` equals `name`
fn contains_piece(s: &[char], ranges: &Vec<(usize, usize)>, name: &[char]) -> (r: bool)
    requires
        forall|k: int| #![trigger ranges@[k]] 0 <= k < ranges@.len() ==> ranges@[k].0 <= ranges@[k].1 <= s@.len(),
    ensures
        r <==> exists|k: int|
            #![trigger ranges@[k]]
            0 <= k < ranges@.len() && s@.subrange(ranges@[k].0 as int, ranges@[k].1 as int) == name@,
{
    let mut i: usize = 0;
    while i < ranges.len()
        invariant
            i <= ranges@.len(),
            forall|k: int| #![trigger ranges@[k]] 0 <= k < ranges@.len() ==> ranges@[k].0 <= ranges@[k].1 <= s@.len(),
            forall|k: int|
                #![trigger ranges@[k]]
                0 <= k < i ==> s@.subrange(ranges@[k].0 as int, ranges@[k].1 as int) != name@,
        decreases ranges@.len() - i,
    {
        let (a, b) = ranges[i];
        let piece = vstd::slice::slice_subrange(s, a, b);
        if chars_eq(piece, name) {
            return true;
        }
        i += 1;
    }
    false
}

pub proof fn lemma_key_index_props(a: ArgsView, k: Seq<char>)
    ensures
        0 <= key_index(a, k) <= a.len(),
        forall|j: int| 0 <= j < key_index(a, k) ==> a[j].0 != k,
        key_index(a, k) < a.len() ==> a[key_index(a, k)].0 == k,
    decreases a.len(),
{
    if a.len() > 0 && a[0].0 != k {
        lemma_key_index_props(a.drop_first(), k);
        assert forall|j: int| 0 <= j < key_index(a, k) implies a[j].0 != k by {
            if j > 0 {
                assert(a[j] == a.drop_first()[j - 1]);
            }
        }
    }
}

pub proof fn lemma_key_index_push(a: ArgsView, p: (Seq<char>, Seq<char>), k: Seq<char>)
    requires
        key_index(a, k) == a.len(),
    ensures
        key_index(a.push(p), k) == if p.0 == k {
            a.len() as int
        } else {
            a.len() as int + 1
        },
{
    lemma_key_index_props(a, k);
    let b = a.push(p);
    if p.0 == k {
        lemma_key_index(b, k, a.len() as int);
    } else {
        lemma_key_index(b, k, b.len() as int);
    }
}


/// Keys that are distinct tokens
pub open spec fn keys_ok(a: ArgsView) -> bool {
    &&& forall|i: int| 0 <= i < a.len() ==> token_ok(#[trigger] a[i].0)
    &&& forall|i: int, j: int| 0 <= i < j < a.len() ==> a[i].0 != a[j].0
}

/// A key or dab token: no space, newline or `=`
pub open spec fn token_ok(t: Seq<char>) -> bool {
    !t.contains(' ') && !t.contains('\n') && !t.contains('=')
}

proof fn lemma_key_index_same_keys(a: ArgsView, b: ArgsView, k: Seq<char>)
    requires
        a.len() == b.len(),
        forall|i: int| 0 <= i < a.len() ==> a[i].0 == b[i].0,
    ensures
        key_index(a, k) == key_index(b, k),
{
    lemma_key_index_props(a, k);
    lemma_key_index(b, k, key_index(a, k));
}

/// Reading an argument after setting one: the value that was set, if it is
/// the same key and the value is not empty; otherwise what was there before
pub proof fn lemma_get_set(a: ArgsView, k: Seq<char>, v: Seq<char>, k2: Seq<char>)
    ensures
        args_get(args_set(a, k, v), k2) == if k2 == k && v.len() > 0 {
            v
        } else {
            args_get(a, k2)
        },
{
    if v.len() > 0 {
        lemma_key_index_props(a, k);
        lemma_key_index_props(a, k2);
        let i = key_index(a, k);
        let j = key_index(a, k2);
        if i < a.len() {
            let b = a.update(i, (k, v));
            lemma_key_index_same_keys(a, b, k2);
        } else {
            let b = a.push((k, v));
            if j < a.len() {
                lemma_key_index(b, k2, j);
            } else {
                lemma_key_index_push(a, (k, v), k2);
            }
        }
    }
}

/// Setting an argument keeps the keys distinct tokens
pub proof fn lemma_set_keys_ok(a: ArgsView, k: Seq<char>, v: Seq<char>)
    requires
        keys_ok(a),
        token_ok(k),
    ensures
        keys_ok(args_set(a, k, v)),
{
    lemma_key_index_props(a, k);
    let b = args_set(a, k, v);
    if v.len() > 0 {
        if key_index(a, k) < a.len() {
            assert forall|i: int| 0 <= i < b.len() implies b[i].0 == a[i].0 by {}
        } else {
            assert forall|i: int| 0 <= i < a.len() implies a[i].0 != k by {}
        }
    }
}

// ---------------------------------------------------------------------------
// Values read back as written
// ---------------------------------------------------------------------------

/// A number written in decimal reads back as itself
pub proof fn lemma_parse_num_dec(v: nat, max: int)
    requires
        v <= max <= int_limit(),
    ensures
        parse_num(dec_digits(v), max) == v,
        parse_num(int_str(v as int), max) == v,
{
    lemma_parse_dec(v);
}

/// A 32 bit number written in decimal reads back as itself
pub proof fn lemma_parse_u32_str(v: u32)
    ensures
        parse_u32(int_str(v as int)) == v,
{
    lemma_parse_int_str(v as int);
}

/// A signed 32 bit number written in decimal reads back as itself
pub proof fn lemma_parse_i32_str(v: i32)
    ensures
        parse_u32(int_str(v as int)) as i32 == v,
{
    lemma_parse_int_str(v as int);
    if v < 0 {
        assert(((v as int + 0x1_0000_0000) as u32) as i32 == v) by (bit_vector)
            requires
                v < 0,
        ;
    } else {
        assert((v as u32) as i32 == v) by (bit_vector)
            requires
                v >= 0,
        ;
    }
}

/// A 16 bit number written in `0x` hexadecimal notation reads back as itself
pub proof fn lemma_parse_hex16(v: u16)
    ensures
        parse_num(hex16_str(v), 65535) == v,
        parse_int(hex16_str(v)) == Some(v as int),
{
    lemma_parse_hex(v as nat, 4);
}

/// `true` reads back as true, `false` as false
pub proof fn lemma_bool_str(b: bool)
    ensures
        (bool_str(b) == "true"@) == b,
        bool_str(b).len() > 0,
{
    reveal_strlit("true");
    reveal_strlit("false");
    if !b {
        assert(bool_str(b)[0] != "true"@[0]);
    }
}

/// Numbers written as a comma separated list read back as the list
pub proof fn lemma_num_list(pieces: Seq<Seq<char>>, vals: Seq<int>, max: int)
    requires
        pieces.len() == vals.len(),
        forall|i: int|
            0 <= i < pieces.len() ==> parse_int(#[trigger] pieces[i]) == Some(vals[i]) && 0
                <= vals[i] <= max && !pieces[i].contains(','),
    ensures
        parse_num_list(join_with(pieces, ','), max) == vals,
{
    let pred = |p: Seq<char>| parse_int(p) matches Some(v) && 0 <= v <= max;
    let val = |p: Seq<char>| parse_int(p)->0;
    if pieces.len() == 0 {
        assert(join_with(pieces, ',') =~= Seq::<char>::empty());
        lemma_split_single(Seq::<char>::empty(), ',');
        let none = Seq::<Seq<char>>::empty();
        assert(none.push(Seq::<char>::empty()) =~= seq![Seq::<char>::empty()]);
        none.lemma_filter_push(Seq::<char>::empty(), pred);
        assert(parse_int(Seq::<char>::empty()) is None);
        reveal(Seq::filter);
        assert(none.filter(pred) =~= none);
        assert(vals =~= Seq::<int>::empty());
    } else {
        assert(all_lack(pieces, ','));
        lemma_split_join(pieces, ',');
        lemma_filter_all(pieces, pred);
        assert(pieces.map_values(val) =~= vals);
    }
}

/// Filtering keeps a sequence whose items all pass
proof fn lemma_filter_all(s: Seq<Seq<char>>, pred: spec_fn(Seq<char>) -> bool)
    requires
        forall|i: int| 0 <= i < s.len() ==> pred(#[trigger] s[i]),
    ensures
        s.filter(pred) == s,
    decreases s.len(),
{
    reveal(Seq::filter);
    if s.len() > 0 {
        lemma_filter_all(s.drop_last(), pred);
        assert(pred(s[s.len() - 1]));
    } else {
        assert(s.filter(pred) =~= s);
    }
}

/// A list of bytes written in decimal reads back as the list
pub proof fn lemma_u8_list(v: Seq<u8>)
    ensures
        parse_num_list(u8_list_str(v), 255) == Seq::new(v.len(), |i: int| v[i] as int),
{
    let pieces = Seq::new(v.len(), |i: int| dec_digits(v[i] as nat));
    let vals = Seq::new(v.len(), |i: int| v[i] as int);
    assert forall|i: int| 0 <= i < pieces.len() implies parse_int(#[trigger] pieces[i]) == Some(
        vals[i],
    ) && 0 <= vals[i] <= 255 && !pieces[i].contains(',') by {
        lemma_parse_dec(v[i] as nat);
        lemma_dec_digits(v[i] as nat);
        lemma_digits_lack(dec_digits(v[i] as nat), ',');
    }
    lemma_num_list(pieces, vals, 255);
}

/// A list of 16 bit numbers written in hexadecimal reads back as the list
pub proof fn lemma_u16_hex_list(v: Seq<u16>)
    ensures
        parse_num_list(u16_list_str(v, true), 65535) == Seq::new(v.len(), |i: int| v[i] as int),
{
    let pieces = u16_pieces(v, true);
    let vals = Seq::new(v.len(), |i: int| v[i] as int);
    assert forall|i: int| 0 <= i < pieces.len() implies parse_int(#[trigger] pieces[i]) == Some(
        vals[i],
    ) && 0 <= vals[i] <= 65535 && !pieces[i].contains(',') by {
        lemma_parse_hex16(v[i]);
        lemma_hex_digits(v[i] as nat, 4);
        let h = hex_digits(v[i] as nat, 4);
        lemma_hex_digits_lack(h, ',');
        let p = hex16_str(v[i]);
        if p.contains(',') {
            let m = choose|m: int| 0 <= m < p.len() && p[m] == ',';
            assert(h[m - 2] == ',');
        }
    }
    lemma_num_list(pieces, vals, 65535);
}

/// Which names are in the list of set bits
proof fn lemma_flag_names_contains(names: Seq<Seq<char>>, v: u8, m: int, x: Seq<char>)
    requires
        0 <= m <= names.len(),
    ensures
        flag_names_set(names, v, m).contains(x) <==> exists|i: int|
            0 <= i < m && bit_set(v, i) && names[i] == x,
    decreases m,
{
    if m > 0 {
        lemma_flag_names_contains(names, v, m - 1, x);
        let prev = flag_names_set(names, v, m - 1);
        if bit_set(v, m - 1) {
            let cur = prev.push(names[m - 1]);
            if cur.contains(x) {
                let k = choose|k: int| 0 <= k < cur.len() && cur[k] == x;
                if k < prev.len() {
                    assert(prev[k] == x);
                }
            }
            if prev.contains(x) {
                let k = choose|k: int| 0 <= k < prev.len() && prev[k] == x;
                assert(cur[k] == x);
            }
            if names[m - 1] == x {
                assert(cur[prev.len() as int] == x);
            }
        }
    }
}

/// The flags read from a list of pieces, when each name is among the pieces
/// exactly when its bit is set, are the value's named bits
proof fn lemma_flags_from(names: Seq<Seq<char>>, pieces: Seq<Seq<char>>, v: u8, m: int)
    requires
        0 <= m <= names.len() <= 8,
        forall|i: int| 0 <= i < m ==> (pieces.contains(#[trigger] names[i]) <==> bit_set(v, i)),
    ensures
        flags_from(names, pieces, m) == v as nat % pow2(m as nat),
    decreases m,
{
    lemma2_to64();
    if m > 0 {
        lemma_flags_from(names, pieces, v, m - 1);
        let p = pow2((m - 1) as nat);
        lemma_pow2_unfold(m as nat);
        lemma_pow2_pos((m - 1) as nat);
        if m < 8 {
            lemma_pow2_strictly_increases(m as nat, 8);
        }
        let prev = flags_from(names, pieces, m - 1);
        assert(prev == v as nat % p);
        let bit = (v as nat / p) % 2;
        assert(bit == 0 || bit == 1) by {
            lemma_mod_bound((v as nat / p) as int, 2);
        }
        assert(pieces.contains(names[m - 1]) <==> bit == 1);
        let add: int = if pieces.contains(names[m - 1]) {
            p as int
        } else {
            0
        };
        assert(add == p * bit) by (nonlinear_arith)
            requires
                bit == 0 || bit == 1,
                add == (if bit == 1 {
                    p as int
                } else {
                    0
                }),
        ;
        lemma_mod_breakdown(v as int, p as int, 2);
        assert(p * 2 == pow2(m as nat));
        assert(v as nat % p < p) by {
            lemma_mod_bound(v as int, p as int);
        }
        assert(prev + add < 256);
        assert(flags_from(names, pieces, m) == (prev + add) as u8);
        assert(v as nat % pow2(m as nat) == p * bit + v as nat % p);
    } else {
        assert(pow2(0) == 1);
        assert(v as nat % 1 == 0);
    }
}

proof fn lemma_mod_bound(x: int, d: int)
    requires
        0 <= x,
        0 < d,
    ensures
        0 <= x % d < d,
{
}

/// A flags value written as names reads back as itself, when each of its
/// set bits has a name
pub proof fn lemma_flags_roundtrip(names: Seq<Seq<char>>, v: u8)
    requires
        names.len() <= 8,
        v < pow2(names.len()),
        forall|i: int| 0 <= i < names.len() ==> (#[trigger] names[i]).len() > 0 && !names[i].contains(','),
        forall|i: int, j: int| 0 <= i < j < names.len() ==> names[i] != names[j],
    ensures
        parse_flags(names, flags_str(names, v)) == v,
{
    let n = names.len() as int;
    let set = flag_names_set(names, v, n);
    let s = flags_str(names, v);
    let pieces = split_on(s, ',');
    lemma_flag_names_len(names, v, n);
    assert forall|i: int| 0 <= i < n implies (pieces.contains(#[trigger] names[i]) <==> bit_set(v, i)) by {
        lemma_flag_names_contains(names, v, n, names[i]);
        if set.len() > 0 {
            lemma_flag_names_members(names, v, n);
            lemma_split_join(set, ',');
        } else {
            lemma_split_single(Seq::<char>::empty(), ',');
            assert(set =~= Seq::<Seq<char>>::empty());
            assert(s =~= Seq::<char>::empty());
            if pieces.contains(names[i]) {
                assert(pieces[0] =~= Seq::<char>::empty());
            }
            if bit_set(v, i) {
                assert(set.contains(names[i]));
            }
        }
    }
    lemma_flags_from(names, pieces, v, n);
    lemma_pow2_pos(n as nat);
    vstd::arithmetic::div_mod::lemma_small_mod(v as nat, pow2(n as nat));
}

/// The list of set bit names holds names only
proof fn lemma_flag_names_members(names: Seq<Seq<char>>, v: u8, m: int)
    requires
        0 <= m <= names.len(),
        forall|i: int| 0 <= i < names.len() ==> (#[trigger] names[i]).len() > 0 && !names[i].contains(','),
    ensures
        all_lack(flag_names_set(names, v, m), ','),
    decreases m,
{
    if m > 0 {
        lemma_flag_names_members(names, v, m - 1);
        let prev = flag_names_set(names, v, m - 1);
        let cur = flag_names_set(names, v, m);
        assert forall|k: int| 0 <= k < cur.len() implies !(#[trigger] cur[k]).contains(',') by {
            if k < prev.len() {
                assert(cur[k] == prev[k]);
            } else {
                assert(cur[k] == names[m - 1]);
            }
        }
    }
}

// ---------------------------------------------------------------------------
// Setting several arguments
// ---------------------------------------------------------------------------

/// Setting the arguments of `pairs` one after another
pub open spec fn args_set_all(a: ArgsView, pairs: ArgsView) -> ArgsView
    decreases pairs.len(),
{
    if pairs.len() == 0 {
        a
    } else {
        args_set(args_set_all(a, pairs.drop_last()), pairs.last().0, pairs.last().1)
    }
}

/// Keys of `pairs` that are distinct tokens
pub open spec fn pair_keys_ok(pairs: ArgsView) -> bool {
    &&& forall|i: int| 0 <= i < pairs.len() ==> token_ok(#[trigger] pairs[i].0)
    &&& forall|i: int, j: int| 0 <= i < j < pairs.len() ==> pairs[i].0 != pairs[j].0
}

/// A key that was never set reads as empty
proof fn lemma_get_absent(pairs: ArgsView, k: Seq<char>)
    requires
        forall|i: int| 0 <= i < pairs.len() ==> pairs[i].0 != k,
    ensures
        args_get(args_set_all(ArgsView::empty(), pairs), k) == Seq::<char>::empty(),
    decreases pairs.len(),
{
    if pairs.len() > 0 {
        let init = pairs.drop_last();
        assert forall|i: int| 0 <= i < init.len() implies init[i].0 != k by {
            assert(init[i] == pairs[i]);
        }
        lemma_get_absent(init, k);
        lemma_get_set(args_set_all(ArgsView::empty(), init), pairs.last().0, pairs.last().1, k);
        assert(pairs[pairs.len() - 1].0 != k);
    }
}

/// Each argument set on fresh arguments reads back as its value (an empty
/// value reads back as empty too)
pub proof fn lemma_get_all(pairs: ArgsView, i: int)
    requires
        0 <= i < pairs.len(),
        forall|a: int, b: int| 0 <= a < b < pairs.len() ==> pairs[a].0 != pairs[b].0,
    ensures
        args_get(args_set_all(ArgsView::empty(), pairs), pairs[i].0) == pairs[i].1,
    decreases pairs.len(),
{
    let init = pairs.drop_last();
    let n = pairs.len() - 1;
    let k = pairs[i].0;
    lemma_get_set(args_set_all(ArgsView::empty(), init), pairs[n].0, pairs[n].1, k);
    if i < n {
        assert(init[i] == pairs[i]);
        assert forall|a: int, b: int| 0 <= a < b < init.len() implies init[a].0 != init[b].0 by {
            assert(init[a] == pairs[a] && init[b] == pairs[b]);
        }
        lemma_get_all(init, i);
    } else if pairs[n].1.len() == 0 {
        assert forall|j: int| 0 <= j < init.len() implies init[j].0 != k by {
            assert(init[j] == pairs[j]);
        }
        lemma_get_absent(init, k);
        assert(pairs[n].1 =~= Seq::<char>::empty());
    }
}

/// Setting arguments with distinct token keys on fresh arguments gives
/// distinct token keys
pub proof fn lemma_set_all_keys_ok(pairs: ArgsView)
    requires
        pair_keys_ok(pairs),
    ensures
        keys_ok(args_set_all(ArgsView::empty(), pairs)),
    decreases pairs.len(),
{
    if pairs.len() > 0 {
        let init = pairs.drop_last();
        assert(pair_keys_ok(init)) by {
            assert forall|i: int| 0 <= i < init.len() implies token_ok(#[trigger] init[i].0) by {
                assert(init[i] == pairs[i]);
            }
            assert forall|a: int, b: int| 0 <= a < b < init.len() implies init[a].0 != init[b].0 by {
                assert(init[a] == pairs[a] && init[b] == pairs[b]);
            }
        }
        lemma_set_all_keys_ok(init);
        assert(token_ok(pairs[pairs.len() - 1].0));
        lemma_set_keys_ok(args_set_all(ArgsView::empty(), init), pairs.last().0, pairs.last().1);
    } else {
        assert(keys_ok(ArgsView::empty()));
    }
}

} // verus!
