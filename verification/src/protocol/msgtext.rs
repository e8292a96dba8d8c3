//! The text form of messages: the arguments and dabs each message is
//! written with, and how a message is read back from them.
use super::base64::{base64_encode, lemma_base64_roundtrip};
use super::message::{
    AnnotationCreateMessage, AnnotationEditMessage, AnnotationReshapeMessage, Body,
    CanvasResizeMessage, ChatMessage, ClassicDab, DisconnectMessage, DrawDabsClassicMessage,
    DrawDabsPixelMessage, FillRectMessage, JoinMessage, LaserTrailMessage, LayerACLMessage,
    LayerAttributesMessage, LayerCreateMessage, LayerDeleteMessage, LayerRetitleMessage,
    LayerVisibilityMessage, Message, MoveRegionMessage, MovePointerMessage, PixelDab,
    PrivateChatMessage, PutImageMessage, PutTileMessage, UndoMessage,
};
use super::textfmt::{
    argb_str, chars_eq, chars_to_string, fixed_str, fixed_value, fixed_value_exec, int_str,
    lemma_fixed_roundtrip, lemma_fixed_str_chars, lemma_parse_argb, parse_argb,
    push_fixed, str_chars,
};
use super::textform::{lemma_text_roundtrip, parse_text, text_of, text_wf};
use super::textmessage::{
    args_get, args_set_all, bool_str, dabs_of, flags_str, hex16_str, keys_ok, lemma_bool_str,
    lemma_flags_roundtrip, lemma_get_all, lemma_parse_hex16, lemma_parse_i32_str,
    lemma_parse_num_dec, lemma_parse_u32_str, lemma_set_all_keys_ok, lemma_u16_hex_list,
    lemma_u8_list, names_view, parse_bytes, parse_flags, parse_num, parse_num_list, parse_u32,
    token_ok, u16_list_str, u8_list_str, ArgsView, DabsView, TextMessage,
};
use vstd::arithmetic::power2::lemma2_to64;
use vstd::prelude::*;

verus! {

/// Whether every dab is a nonempty list of tokens
pub open spec fn dabs_ok(d: DabsView) -> bool {
    forall|i: int|
        0 <= i < d.len() ==> (#[trigger] d[i]).len() >= 1 && forall|j: int|
            0 <= j < d[i].len() ==> token_ok(#[trigger] d[i][j])
}

/// Whether a list of bytes is the list of numbers read back
pub open spec fn list_reads_u8(v: Seq<u8>, l: Seq<int>) -> bool {
    &&& v.len() == l.len()
    &&& forall|i: int| 0 <= i < v.len() ==> v[i] == l[i]
}

/// Whether a list of 16 bit numbers is the list of numbers read back
pub open spec fn list_reads_u16(v: Seq<u16>, l: Seq<int>) -> bool {
    &&& v.len() == l.len()
    &&& forall|i: int| 0 <= i < v.len() ==> v[i] == l[i]
}

/// The fixed point notation of `v / 2^k` as a string
fn fixed_string(v: i64, k: u64) -> (s: String)
    requires
        k <= 8,
        v > i64::MIN,
    ensures
        s@ == fixed_str(v as int, k as nat),
{
    let mut out: Vec<char> = Vec::new();
    push_fixed(&mut out, v, k);
    chars_to_string(out.as_slice())
}

/// A fixed point token times 2^k, rounded toward zero and saturated to `lo..=hi`
fn fixed_token(s: &str, k: u64, lo: i64, hi: i64) -> (r: i64)
    requires
        k <= 8,
        -0x1_0000_0000 <= lo <= 0 <= hi <= 0x1_0000_0000,
    ensures
        r == fixed_value(s@, k as nat, lo as int, hi as int),
        lo <= r <= hi,
{
    let chars = str_chars(s);
    proof {
        crate::protocol::textfmt::lemma_fixed_value_range(chars@, k as nat, lo as int, hi as int);
    }
    fixed_value_exec(chars.as_slice(), k, lo, hi)
}

/// A fixed point token is a token
proof fn fixed_token_ok(v: int, k: nat)
    requires
        k <= 8,
    ensures
        token_ok(fixed_str(v, k)),
{
    lemma_fixed_str_chars(v, k, ' ');
    lemma_fixed_str_chars(v, k, '\n');
    lemma_fixed_str_chars(v, k, '=');
}

/// Whether two character sequences are equal
fn name_is(name: &[char], lit: &str) -> (r: bool)
    ensures
        r == (name@ == lit@),
{
    let l = str_chars(lit);
    chars_eq(name, l.as_slice())
}

/// The tokens of one dab in the text form
pub open spec fn classicdab_tokens(d: ClassicDab) -> Seq<Seq<char>> {
    seq![fixed_str(d.x as int, 2), fixed_str(d.y as int, 2), fixed_str(d.size as int, 8), fixed_str(d.opacity as int, 0), fixed_str(d.hardness as int, 0)]
}

/// The dab read from tokens
pub open spec fn classicdab_of_tokens(t: Seq<Seq<char>>) -> ClassicDab {
    ClassicDab {
        x: fixed_value(t[0], 2, -128, 127) as i8,
        y: fixed_value(t[1], 2, -128, 127) as i8,
        size: fixed_value(t[2], 8, 0, 65535) as u16,
        opacity: fixed_value(t[3], 0, 0, 255) as u8,
        hardness: fixed_value(t[4], 0, 0, 255) as u8,
    }
}

/// The dabs read from text dabs: those with 5 tokens
pub open spec fn classicdabs_read(d: DabsView) -> Seq<ClassicDab> {
    d.filter(|t: Seq<Seq<char>>| t.len() == 5).map_values(|t: Seq<Seq<char>>| classicdab_of_tokens(t))
}

fn classicdab_dabs_text(dabs: &Vec<ClassicDab>) -> (r: Vec<Vec<String>>)
    ensures
        dabs_of(r@) == Seq::new(dabs@.len(), |i: int| classicdab_tokens(dabs@[i])),
{
    let mut r: Vec<Vec<String>> = Vec::new();
    let mut i: usize = 0;
    while i < dabs.len()
        invariant
            i <= dabs@.len(),
            dabs_of(r@) == Seq::new(i as nat, |j: int| classicdab_tokens(dabs@[j])),
        decreases dabs@.len() - i,
    {
        let d = dabs[i];
        let mut t: Vec<String> = Vec::new();
        t.push(fixed_string(d.x as i64, 2));
        t.push(fixed_string(d.y as i64, 2));
        t.push(fixed_string(d.size as i64, 8));
        t.push(fixed_string(d.opacity as i64, 0));
        t.push(fixed_string(d.hardness as i64, 0));
        assert(Seq::new(t@.len(), |j: int| t@[j]@) =~= classicdab_tokens(d));
        let ghost before = dabs_of(r@);
        r.push(t);
        assert(dabs_of(r@) =~= before.push(classicdab_tokens(d)));
        i += 1;
        assert(dabs_of(r@) =~= Seq::new(i as nat, |j: int| classicdab_tokens(dabs@[j])));
    }
    r
}

fn classicdabs_from_text(dabs: &Vec<Vec<String>>) -> (r: Vec<ClassicDab>)
    ensures
        r@ == classicdabs_read(dabs_of(dabs@)),
{
    let ghost dv = dabs_of(dabs@);
    let ghost pred = |t: Seq<Seq<char>>| t.len() == 5;
    let ghost conv = |t: Seq<Seq<char>>| classicdab_of_tokens(t);
    let mut r: Vec<ClassicDab> = Vec::new();
    let mut i: usize = 0;
    proof {
        reveal(Seq::filter);
        assert(dv.take(0) =~= DabsView::empty());
        assert(DabsView::empty().filter(pred) =~= DabsView::empty());
        assert(r@ =~= DabsView::empty().filter(pred).map_values(conv));
    }
    while i < dabs.len()
        invariant
            i <= dabs@.len(),
            dv == dabs_of(dabs@),
            pred == (|t: Seq<Seq<char>>| t.len() == 5),
            conv == (|t: Seq<Seq<char>>| classicdab_of_tokens(t)),
            r@ == dv.take(i as int).filter(pred).map_values(conv),
        decreases dabs@.len() - i,
    {
        let t = &dabs[i];
        let ghost tv = dv[i as int];
        let ghost before = r@;
        proof {
            assert(dv.take(i + 1) =~= dv.take(i as int).push(tv));
            dv.take(i as int).lemma_filter_push(tv, pred);
        }
        if t.len() == 5 {
            let d = ClassicDab {
                x: fixed_token(t[0].as_str(), 2, -128, 127) as i8,
                y: fixed_token(t[1].as_str(), 2, -128, 127) as i8,
                size: fixed_token(t[2].as_str(), 8, 0, 65535) as u16,
                opacity: fixed_token(t[3].as_str(), 0, 0, 255) as u8,
                hardness: fixed_token(t[4].as_str(), 0, 0, 255) as u8,
            };
            r.push(d);
            proof {
                dv.take(i as int).filter(pred).lemma_push_map_commute(conv, tv);
                assert(d == classicdab_of_tokens(tv));
            }
        }
        i += 1;
    }
    proof {
        assert(dv.take(i as int) =~= dv);
    }
    r
}

/// Dabs written as text read back as the dabs
pub proof fn lemma_classicdabs_roundtrip(dabs: Seq<ClassicDab>)
    ensures
        classicdabs_read(Seq::new(dabs.len(), |i: int| classicdab_tokens(dabs[i]))) == dabs,
        dabs_ok(Seq::new(dabs.len(), |i: int| classicdab_tokens(dabs[i]))),
    decreases dabs.len(),
{
    let pred = |t: Seq<Seq<char>>| t.len() == 5;
    let conv = |t: Seq<Seq<char>>| classicdab_of_tokens(t);
    let dv = Seq::new(dabs.len(), |i: int| classicdab_tokens(dabs[i]));
    if dabs.len() == 0 {
        reveal(Seq::filter);
        assert(dv =~= DabsView::empty());
        assert(dv.filter(pred) =~= DabsView::empty());
        assert(classicdabs_read(dv) =~= dabs);
    } else {
        let init = dabs.drop_last();
        let d = dabs.last();
        lemma_classicdabs_roundtrip(init);
        let di = Seq::new(init.len(), |i: int| classicdab_tokens(init[i]));
        assert(dv =~= di.push(classicdab_tokens(d)));
        di.lemma_filter_push(classicdab_tokens(d), pred);
        di.filter(pred).lemma_push_map_commute(conv, classicdab_tokens(d));
        lemma_fixed_roundtrip(d.x as int, 2, -128, 127);
        lemma_fixed_roundtrip(d.y as int, 2, -128, 127);
        lemma_fixed_roundtrip(d.size as int, 8, 0, 65535);
        lemma_fixed_roundtrip(d.opacity as int, 0, 0, 255);
        lemma_fixed_roundtrip(d.hardness as int, 0, 0, 255);
        assert(classicdab_of_tokens(classicdab_tokens(d)) == d);
        assert(classicdabs_read(dv) =~= dabs);
        assert forall|i: int| 0 <= i < dv.len() implies (#[trigger] dv[i]).len() >= 1 && forall|j: int|
            0 <= j < dv[i].len() ==> token_ok(#[trigger] dv[i][j]) by {
            assert forall|j: int| 0 <= j < dv[i].len() implies token_ok(#[trigger] dv[i][j]) by {
                if j == 0 {
                    fixed_token_ok(dabs[i].x as int, 2);
                }
                if j == 1 {
                    fixed_token_ok(dabs[i].y as int, 2);
                }
                if j == 2 {
                    fixed_token_ok(dabs[i].size as int, 8);
                }
                if j == 3 {
                    fixed_token_ok(dabs[i].opacity as int, 0);
                }
                if j == 4 {
                    fixed_token_ok(dabs[i].hardness as int, 0);
                }
            }
        }
    }
}

/// The tokens of one dab in the text form
pub open spec fn pixeldab_tokens(d: PixelDab) -> Seq<Seq<char>> {
    seq![fixed_str(d.x as int, 0), fixed_str(d.y as int, 0), fixed_str(d.size as int, 0), fixed_str(d.opacity as int, 0)]
}

/// The dab read from tokens
pub open spec fn pixeldab_of_tokens(t: Seq<Seq<char>>) -> PixelDab {
    PixelDab {
        x: fixed_value(t[0], 0, -128, 127) as i8,
        y: fixed_value(t[1], 0, -128, 127) as i8,
        size: fixed_value(t[2], 0, 0, 255) as u8,
        opacity: fixed_value(t[3], 0, 0, 255) as u8,
    }
}

/// The dabs read from text dabs: those with 4 tokens
pub open spec fn pixeldabs_read(d: DabsView) -> Seq<PixelDab> {
    d.filter(|t: Seq<Seq<char>>| t.len() == 4).map_values(|t: Seq<Seq<char>>| pixeldab_of_tokens(t))
}

fn pixeldab_dabs_text(dabs: &Vec<PixelDab>) -> (r: Vec<Vec<String>>)
    ensures
        dabs_of(r@) == Seq::new(dabs@.len(), |i: int| pixeldab_tokens(dabs@[i])),
{
    let mut r: Vec<Vec<String>> = Vec::new();
    let mut i: usize = 0;
    while i < dabs.len()
        invariant
            i <= dabs@.len(),
            dabs_of(r@) == Seq::new(i as nat, |j: int| pixeldab_tokens(dabs@[j])),
        decreases dabs@.len() - i,
    {
        let d = dabs[i];
        let mut t: Vec<String> = Vec::new();
        t.push(fixed_string(d.x as i64, 0));
        t.push(fixed_string(d.y as i64, 0));
        t.push(fixed_string(d.size as i64, 0));
        t.push(fixed_string(d.opacity as i64, 0));
        assert(Seq::new(t@.len(), |j: int| t@[j]@) =~= pixeldab_tokens(d));
        let ghost before = dabs_of(r@);
        r.push(t);
        assert(dabs_of(r@) =~= before.push(pixeldab_tokens(d)));
        i += 1;
        assert(dabs_of(r@) =~= Seq::new(i as nat, |j: int| pixeldab_tokens(dabs@[j])));
    }
    r
}

fn pixeldabs_from_text(dabs: &Vec<Vec<String>>) -> (r: Vec<PixelDab>)
    ensures
        r@ == pixeldabs_read(dabs_of(dabs@)),
{
    let ghost dv = dabs_of(dabs@);
    let ghost pred = |t: Seq<Seq<char>>| t.len() == 4;
    let ghost conv = |t: Seq<Seq<char>>| pixeldab_of_tokens(t);
    let mut r: Vec<PixelDab> = Vec::new();
    let mut i: usize = 0;
    proof {
        reveal(Seq::filter);
        assert(dv.take(0) =~= DabsView::empty());
        assert(DabsView::empty().filter(pred) =~= DabsView::empty());
        assert(r@ =~= DabsView::empty().filter(pred).map_values(conv));
    }
    while i < dabs.len()
        invariant
            i <= dabs@.len(),
            dv == dabs_of(dabs@),
            pred == (|t: Seq<Seq<char>>| t.len() == 4),
            conv == (|t: Seq<Seq<char>>| pixeldab_of_tokens(t)),
            r@ == dv.take(i as int).filter(pred).map_values(conv),
        decreases dabs@.len() - i,
    {
        let t = &dabs[i];
        let ghost tv = dv[i as int];
        let ghost before = r@;
        proof {
            assert(dv.take(i + 1) =~= dv.take(i as int).push(tv));
            dv.take(i as int).lemma_filter_push(tv, pred);
        }
        if t.len() == 4 {
            let d = PixelDab {
                x: fixed_token(t[0].as_str(), 0, -128, 127) as i8,
                y: fixed_token(t[1].as_str(), 0, -128, 127) as i8,
                size: fixed_token(t[2].as_str(), 0, 0, 255) as u8,
                opacity: fixed_token(t[3].as_str(), 0, 0, 255) as u8,
            };
            r.push(d);
            proof {
                dv.take(i as int).filter(pred).lemma_push_map_commute(conv, tv);
                assert(d == pixeldab_of_tokens(tv));
            }
        }
        i += 1;
    }
    proof {
        assert(dv.take(i as int) =~= dv);
    }
    r
}

/// Dabs written as text read back as the dabs
pub proof fn lemma_pixeldabs_roundtrip(dabs: Seq<PixelDab>)
    ensures
        pixeldabs_read(Seq::new(dabs.len(), |i: int| pixeldab_tokens(dabs[i]))) == dabs,
        dabs_ok(Seq::new(dabs.len(), |i: int| pixeldab_tokens(dabs[i]))),
    decreases dabs.len(),
{
    let pred = |t: Seq<Seq<char>>| t.len() == 4;
    let conv = |t: Seq<Seq<char>>| pixeldab_of_tokens(t);
    let dv = Seq::new(dabs.len(), |i: int| pixeldab_tokens(dabs[i]));
    if dabs.len() == 0 {
        reveal(Seq::filter);
        assert(dv =~= DabsView::empty());
        assert(dv.filter(pred) =~= DabsView::empty());
        assert(pixeldabs_read(dv) =~= dabs);
    } else {
        let init = dabs.drop_last();
        let d = dabs.last();
        lemma_pixeldabs_roundtrip(init);
        let di = Seq::new(init.len(), |i: int| pixeldab_tokens(init[i]));
        assert(dv =~= di.push(pixeldab_tokens(d)));
        di.lemma_filter_push(pixeldab_tokens(d), pred);
        di.filter(pred).lemma_push_map_commute(conv, pixeldab_tokens(d));
        lemma_fixed_roundtrip(d.x as int, 0, -128, 127);
        lemma_fixed_roundtrip(d.y as int, 0, -128, 127);
        lemma_fixed_roundtrip(d.size as int, 0, 0, 255);
        lemma_fixed_roundtrip(d.opacity as int, 0, 0, 255);
        assert(pixeldab_of_tokens(pixeldab_tokens(d)) == d);
        assert(pixeldabs_read(dv) =~= dabs);
        assert forall|i: int| 0 <= i < dv.len() implies (#[trigger] dv[i]).len() >= 1 && forall|j: int|
            0 <= j < dv[i].len() ==> token_ok(#[trigger] dv[i][j]) by {
            assert forall|j: int| 0 <= j < dv[i].len() implies token_ok(#[trigger] dv[i][j]) by {
                if j == 0 {
                    fixed_token_ok(dabs[i].x as int, 0);
                }
                if j == 1 {
                    fixed_token_ok(dabs[i].y as int, 0);
                }
                if j == 2 {
                    fixed_token_ok(dabs[i].size as int, 0);
                }
                if j == 3 {
                    fixed_token_ok(dabs[i].opacity as int, 0);
                }
            }
        }
    }
}

impl DisconnectMessage {
    /// The arguments of the text form, in the order they are written
    pub open spec fn spec_text_pairs(&self) -> ArgsView {
        seq![
            ("reason"@, int_str(self.reason as int)),
            ("message"@, self.message@),
        ]
    }

    /// Whether the text form reads back as this message: each flags value
    /// has only bits that have a name
    pub open spec fn spec_text_ok(&self) -> bool {
        true
    }

    /// Whether this message holds the fields read from text arguments `a`
    pub open spec fn spec_reads_text(&self, a: ArgsView) -> bool {
        &&& self.reason == parse_num(args_get(a, "reason"@), 255)
        &&& self.message@ == args_get(a, "message"@)
    }

    fn to_text(&self, txt: TextMessage) -> (r: TextMessage)
        ensures
            r.user_id == txt.user_id,
            r.name@ == txt.name@,
            r.dabs_view() == txt.dabs_view(),
            r.args_view() == args_set_all(txt.args_view(), self.spec_text_pairs()),
    {
        let ghost a = txt.args_view();
        let r = txt.set_dec("reason", self.reason as i64).set("message", self.message.clone());
        proof {
            reveal_with_fuel(args_set_all, 3);
            let p = self.spec_text_pairs();
            assert(p.take(2).drop_last() =~= p.take(1));
            assert(p.take(1).drop_last() =~= p.take(0));
            assert(p.take(2) =~= p);
        }
        r
    }

    fn from_text(tm: &TextMessage) -> (r: Self)
        ensures
            r.spec_reads_text(tm.args_view()),
    {
        let reason = tm.get_u8("reason");
        let message = tm.get_str("message");
        Self { reason, message }
    }

    /// The text form reads back as this message
    pub proof fn lemma_text_roundtrip(&self)
        requires
            self.spec_text_ok(),
        ensures
            self.spec_reads_text(args_set_all(ArgsView::empty(), self.spec_text_pairs())),
            keys_ok(args_set_all(ArgsView::empty(), self.spec_text_pairs())),
    {
        let p = self.spec_text_pairs();
        reveal_strlit("reason");
        reveal_strlit("message");
        assert("message"@.len() == 7);
        assert("reason"@.len() == 6);
        lemma_set_all_keys_ok(p);
        lemma_get_all(p, 0);
        lemma_parse_num_dec(self.reason as nat, 255);
        lemma_get_all(p, 1);
    }

    /// The text form holds each field under its own name (reason, message)
    pub proof fn lemma_text_fields(&self)
        ensures
            args_get(args_set_all(ArgsView::empty(), self.spec_text_pairs()), "reason"@) == int_str(self.reason as int),
            args_get(args_set_all(ArgsView::empty(), self.spec_text_pairs()), "message"@) == self.message@,
    {
        let p = self.spec_text_pairs();
        reveal_strlit("reason");
        reveal_strlit("message");
        assert("message"@.len() == 7);
        assert("reason"@.len() == 6);
        lemma_get_all(p, 0);
        lemma_get_all(p, 1);
    }
}

impl JoinMessage {
    /// The arguments of the text form, in the order they are written
    pub open spec fn spec_text_pairs(&self) -> ArgsView {
        seq![
            ("flags"@, flags_str(seq!["auth"@, "mod"@, "bot"@], self.flags)),
            ("name"@, self.name@),
            ("avatar"@, base64_encode(self.avatar@)),
        ]
    }

    /// Whether the text form reads back as this message: each flags value
    /// has only bits that have a name
    pub open spec fn spec_text_ok(&self) -> bool {
        self.flags < 8
    }

    /// Whether this message holds the fields read from text arguments `a`
    pub open spec fn spec_reads_text(&self, a: ArgsView) -> bool {
        &&& self.flags == parse_flags(seq!["auth"@, "mod"@, "bot"@], args_get(a, "flags"@))
        &&& self.name@ == args_get(a, "name"@)
        &&& self.avatar@ == parse_bytes(args_get(a, "avatar"@))
    }

    fn to_text(&self, txt: TextMessage) -> (r: TextMessage)
        ensures
            r.user_id == txt.user_id,
            r.name@ == txt.name@,
            r.dabs_view() == txt.dabs_view(),
            r.args_view() == args_set_all(txt.args_view(), self.spec_text_pairs()),
    {
        let names: [&str; 3] = ["auth", "mod", "bot"];
        assert(names_view(names@) =~= seq!["auth"@, "mod"@, "bot"@]);
        let ghost a = txt.args_view();
        let r = txt.set_flags("flags", names.as_slice(), self.flags).set("name", self.name.clone()).set_bytes("avatar", self.avatar.as_slice());
        proof {
            reveal_with_fuel(args_set_all, 4);
            let p = self.spec_text_pairs();
            assert(p.take(3).drop_last() =~= p.take(2));
            assert(p.take(2).drop_last() =~= p.take(1));
            assert(p.take(1).drop_last() =~= p.take(0));
            assert(p.take(3) =~= p);
        }
        r
    }

    fn from_text(tm: &TextMessage) -> (r: Self)
        ensures
            r.spec_reads_text(tm.args_view()),
    {
        let names: [&str; 3] = ["auth", "mod", "bot"];
        assert(names_view(names@) =~= seq!["auth"@, "mod"@, "bot"@]);
        let flags = tm.get_flags(names.as_slice(), "flags");
        let name = tm.get_str("name");
        let avatar = tm.get_bytes("avatar");
        Self { flags, name, avatar }
    }

    /// The text form reads back as this message
    pub proof fn lemma_text_roundtrip(&self)
        requires
            self.spec_text_ok(),
        ensures
            self.spec_reads_text(args_set_all(ArgsView::empty(), self.spec_text_pairs())),
            keys_ok(args_set_all(ArgsView::empty(), self.spec_text_pairs())),
    {
        let p = self.spec_text_pairs();
        reveal_strlit("flags");
        reveal_strlit("name");
        reveal_strlit("avatar");
        assert("avatar"@.len() == 6);
        assert("flags"@.len() == 5);
        assert("name"@.len() == 4);
        reveal_strlit("auth");
        assert("auth"@.len() == 4);
        reveal_strlit("mod");
        assert("mod"@.len() == 3);
        reveal_strlit("bot");
        assert("bot"@.len() == 3);
        assert("mod"@[0] != "bot"@[0]);
        assert(!"auth"@.contains(','));
        lemma2_to64();
        lemma_set_all_keys_ok(p);
        lemma_get_all(p, 0);
        lemma_flags_roundtrip(seq!["auth"@, "mod"@, "bot"@], self.flags);
        lemma_get_all(p, 1);
        lemma_get_all(p, 2);
        lemma_base64_roundtrip(self.avatar@);
    }

    /// The text form holds each field under its own name (flags, name, avatar)
    pub proof fn lemma_text_fields(&self)
        ensures
            args_get(args_set_all(ArgsView::empty(), self.spec_text_pairs()), "flags"@) == flags_str(seq!["auth"@, "mod"@, "bot"@], self.flags),
            args_get(args_set_all(ArgsView::empty(), self.spec_text_pairs()), "name"@) == self.name@,
            args_get(args_set_all(ArgsView::empty(), self.spec_text_pairs()), "avatar"@) == base64_encode(self.avatar@),
    {
        let p = self.spec_text_pairs();
        reveal_strlit("flags");
        reveal_strlit("name");
        reveal_strlit("avatar");
        assert("avatar"@.len() == 6);
        assert("flags"@.len() == 5);
        assert("name"@.len() == 4);
        reveal_strlit("auth");
        assert("auth"@.len() == 4);
        reveal_strlit("mod");
        assert("mod"@.len() == 3);
        reveal_strlit("bot");
        assert("bot"@.len() == 3);
        assert("mod"@[0] != "bot"@[0]);
        assert(!"auth"@.contains(','));
        lemma2_to64();
        lemma_get_all(p, 0);
        lemma_get_all(p, 1);
        lemma_get_all(p, 2);
    }
}

impl ChatMessage {
    /// The arguments of the text form, in the order they are written
    pub open spec fn spec_text_pairs(&self) -> ArgsView {
        seq![
            ("flags"@, flags_str(seq!["bypass"@, "shout"@, "action"@, "pin"@], self.flags)),
            ("message"@, self.message@),
        ]
    }

    /// Whether the text form reads back as this message: each flags value
    /// has only bits that have a name
    pub open spec fn spec_text_ok(&self) -> bool {
        self.flags < 16
    }

    /// Whether this message holds the fields read from text arguments `a`
    pub open spec fn spec_reads_text(&self, a: ArgsView) -> bool {
        &&& self.flags == parse_flags(seq!["bypass"@, "shout"@, "action"@, "pin"@], args_get(a, "flags"@))
        &&& self.message@ == args_get(a, "message"@)
    }

    fn to_text(&self, txt: TextMessage) -> (r: TextMessage)
        ensures
            r.user_id == txt.user_id,
            r.name@ == txt.name@,
            r.dabs_view() == txt.dabs_view(),
            r.args_view() == args_set_all(txt.args_view(), self.spec_text_pairs()),
    {
        let names: [&str; 4] = ["bypass", "shout", "action", "pin"];
        assert(names_view(names@) =~= seq!["bypass"@, "shout"@, "action"@, "pin"@]);
        let ghost a = txt.args_view();
        let r = txt.set_flags("flags", names.as_slice(), self.flags).set("message", self.message.clone());
        proof {
            reveal_with_fuel(args_set_all, 3);
            let p = self.spec_text_pairs();
            assert(p.take(2).drop_last() =~= p.take(1));
            assert(p.take(1).drop_last() =~= p.take(0));
            assert(p.take(2) =~= p);
        }
        r
    }

    fn from_text(tm: &TextMessage) -> (r: Self)
        ensures
            r.spec_reads_text(tm.args_view()),
    {
        let names: [&str; 4] = ["bypass", "shout", "action", "pin"];
        assert(names_view(names@) =~= seq!["bypass"@, "shout"@, "action"@, "pin"@]);
        let flags = tm.get_flags(names.as_slice(), "flags");
        let message = tm.get_str("message");
        Self { flags, message }
    }

    /// The text form reads back as this message
    pub proof fn lemma_text_roundtrip(&self)
        requires
            self.spec_text_ok(),
        ensures
            self.spec_reads_text(args_set_all(ArgsView::empty(), self.spec_text_pairs())),
            keys_ok(args_set_all(ArgsView::empty(), self.spec_text_pairs())),
    {
        let p = self.spec_text_pairs();
        reveal_strlit("flags");
        reveal_strlit("message");
        assert("flags"@.len() == 5);
        assert("message"@.len() == 7);
        reveal_strlit("bypass");
        assert("bypass"@.len() == 6);
        reveal_strlit("shout");
        assert("shout"@.len() == 5);
        reveal_strlit("action");
        assert("action"@.len() == 6);
        reveal_strlit("pin");
        assert("pin"@.len() == 3);
        assert("bypass"@[0] != "action"@[0]);
        assert(!"bypass"@.contains(','));
        lemma2_to64();
        lemma_set_all_keys_ok(p);
        lemma_get_all(p, 0);
        lemma_flags_roundtrip(seq!["bypass"@, "shout"@, "action"@, "pin"@], self.flags);
        lemma_get_all(p, 1);
    }

    /// The text form holds each field under its own name (flags, message)
    pub proof fn lemma_text_fields(&self)
        ensures
            args_get(args_set_all(ArgsView::empty(), self.spec_text_pairs()), "flags"@) == flags_str(seq!["bypass"@, "shout"@, "action"@, "pin"@], self.flags),
            args_get(args_set_all(ArgsView::empty(), self.spec_text_pairs()), "message"@) == self.message@,
    {
        let p = self.spec_text_pairs();
        reveal_strlit("flags");
        reveal_strlit("message");
        assert("flags"@.len() == 5);
        assert("message"@.len() == 7);
        reveal_strlit("bypass");
        assert("bypass"@.len() == 6);
        reveal_strlit("shout");
        assert("shout"@.len() == 5);
        reveal_strlit("action");
        assert("action"@.len() == 6);
        reveal_strlit("pin");
        assert("pin"@.len() == 3);
        assert("bypass"@[0] != "action"@[0]);
        assert(!"bypass"@.contains(','));
        lemma2_to64();
        lemma_get_all(p, 0);
        lemma_get_all(p, 1);
    }
}

impl PrivateChatMessage {
    /// The arguments of the text form, in the order they are written
    pub open spec fn spec_text_pairs(&self) -> ArgsView {
        seq![
            ("target"@, int_str(self.target as int)),
            ("flags"@, flags_str(seq!["action"@], self.flags)),
            ("message"@, self.message@),
        ]
    }

    /// Whether the text form reads back as this message: each flags value
    /// has only bits that have a name
    pub open spec fn spec_text_ok(&self) -> bool {
        self.flags < 2
    }

    /// Whether this message holds the fields read from text arguments `a`
    pub open spec fn spec_reads_text(&self, a: ArgsView) -> bool {
        &&& self.target == parse_num(args_get(a, "target"@), 255)
        &&& self.flags == parse_flags(seq!["action"@], args_get(a, "flags"@))
        &&& self.message@ == args_get(a, "message"@)
    }

    fn to_text(&self, txt: TextMessage) -> (r: TextMessage)
        ensures
            r.user_id == txt.user_id,
            r.name@ == txt.name@,
            r.dabs_view() == txt.dabs_view(),
            r.args_view() == args_set_all(txt.args_view(), self.spec_text_pairs()),
    {
        let names: [&str; 1] = ["action"];
        assert(names_view(names@) =~= seq!["action"@]);
        let ghost a = txt.args_view();
        let r = txt.set_dec("target", self.target as i64).set_flags("flags", names.as_slice(), self.flags).set("message", self.message.clone());
        proof {
            reveal_with_fuel(args_set_all, 4);
            let p = self.spec_text_pairs();
            assert(p.take(3).drop_last() =~= p.take(2));
            assert(p.take(2).drop_last() =~= p.take(1));
            assert(p.take(1).drop_last() =~= p.take(0));
            assert(p.take(3) =~= p);
        }
        r
    }

    fn from_text(tm: &TextMessage) -> (r: Self)
        ensures
            r.spec_reads_text(tm.args_view()),
    {
        let names: [&str; 1] = ["action"];
        assert(names_view(names@) =~= seq!["action"@]);
        let target = tm.get_u8("target");
        let flags = tm.get_flags(names.as_slice(), "flags");
        let message = tm.get_str("message");
        Self { target, flags, message }
    }

    /// The text form reads back as this message
    pub proof fn lemma_text_roundtrip(&self)
        requires
            self.spec_text_ok(),
        ensures
            self.spec_reads_text(args_set_all(ArgsView::empty(), self.spec_text_pairs())),
            keys_ok(args_set_all(ArgsView::empty(), self.spec_text_pairs())),
    {
        let p = self.spec_text_pairs();
        reveal_strlit("target");
        reveal_strlit("flags");
        reveal_strlit("message");
        assert("flags"@.len() == 5);
        assert("message"@.len() == 7);
        assert("target"@.len() == 6);
        reveal_strlit("action");
        assert("action"@.len() == 6);
        assert(!"action"@.contains(','));
        lemma2_to64();
        lemma_set_all_keys_ok(p);
        lemma_get_all(p, 0);
        lemma_parse_num_dec(self.target as nat, 255);
        lemma_get_all(p, 1);
        lemma_flags_roundtrip(seq!["action"@], self.flags);
        lemma_get_all(p, 2);
    }

    /// The text form holds each field under its own name (target, flags, message)
    pub proof fn lemma_text_fields(&self)
        ensures
            args_get(args_set_all(ArgsView::empty(), self.spec_text_pairs()), "target"@) == int_str(self.target as int),
            args_get(args_set_all(ArgsView::empty(), self.spec_text_pairs()), "flags"@) == flags_str(seq!["action"@], self.flags),
            args_get(args_set_all(ArgsView::empty(), self.spec_text_pairs()), "message"@) == self.message@,
    {
        let p = self.spec_text_pairs();
        reveal_strlit("target");
        reveal_strlit("flags");
        reveal_strlit("message");
        assert("flags"@.len() == 5);
        assert("message"@.len() == 7);
        assert("target"@.len() == 6);
        reveal_strlit("action");
        assert("action"@.len() == 6);
        assert(!"action"@.contains(','));
        lemma2_to64();
        lemma_get_all(p, 0);
        lemma_get_all(p, 1);
        lemma_get_all(p, 2);
    }
}

impl LaserTrailMessage {
    /// The arguments of the text form, in the order they are written
    pub open spec fn spec_text_pairs(&self) -> ArgsView {
        seq![
            ("color"@, argb_str(self.color)),
            ("persistence"@, int_str(self.persistence as int)),
        ]
    }

    /// Whether the text form reads back as this message: each flags value
    /// has only bits that have a name
    pub open spec fn spec_text_ok(&self) -> bool {
        true
    }

    /// Whether this message holds the fields read from text arguments `a`
    pub open spec fn spec_reads_text(&self, a: ArgsView) -> bool {
        &&& self.color == parse_argb(args_get(a, "color"@))
        &&& self.persistence == parse_num(args_get(a, "persistence"@), 255)
    }

    fn to_text(&self, txt: TextMessage) -> (r: TextMessage)
        ensures
            r.user_id == txt.user_id,
            r.name@ == txt.name@,
            r.dabs_view() == txt.dabs_view(),
            r.args_view() == args_set_all(txt.args_view(), self.spec_text_pairs()),
    {
        let ghost a = txt.args_view();
        let r = txt.set_argb32("color", self.color).set_dec("persistence", self.persistence as i64);
        proof {
            reveal_with_fuel(args_set_all, 3);
            let p = self.spec_text_pairs();
            assert(p.take(2).drop_last() =~= p.take(1));
            assert(p.take(1).drop_last() =~= p.take(0));
            assert(p.take(2) =~= p);
        }
        r
    }

    fn from_text(tm: &TextMessage) -> (r: Self)
        ensures
            r.spec_reads_text(tm.args_view()),
    {
        let color = tm.get_argb32("color");
        let persistence = tm.get_u8("persistence");
        Self { color, persistence }
    }

    /// The text form reads back as this message
    pub proof fn lemma_text_roundtrip(&self)
        requires
            self.spec_text_ok(),
        ensures
            self.spec_reads_text(args_set_all(ArgsView::empty(), self.spec_text_pairs())),
            keys_ok(args_set_all(ArgsView::empty(), self.spec_text_pairs())),
    {
        let p = self.spec_text_pairs();
        reveal_strlit("color");
        reveal_strlit("persistence");
        assert("color"@.len() == 5);
        assert("persistence"@.len() == 11);
        lemma_set_all_keys_ok(p);
        lemma_get_all(p, 0);
        lemma_parse_argb(self.color);
        lemma_get_all(p, 1);
        lemma_parse_num_dec(self.persistence as nat, 255);
    }

    /// The text form holds each field under its own name (color, persistence)
    pub proof fn lemma_text_fields(&self)
        ensures
            args_get(args_set_all(ArgsView::empty(), self.spec_text_pairs()), "color"@) == argb_str(self.color),
            args_get(args_set_all(ArgsView::empty(), self.spec_text_pairs()), "persistence"@) == int_str(self.persistence as int),
    {
        let p = self.spec_text_pairs();
        reveal_strlit("color");
        reveal_strlit("persistence");
        assert("color"@.len() == 5);
        assert("persistence"@.len() == 11);
        lemma_get_all(p, 0);
        lemma_get_all(p, 1);
    }
}

impl MovePointerMessage {
    /// The arguments of the text form, in the order they are written
    pub open spec fn spec_text_pairs(&self) -> ArgsView {
        seq![
            ("x"@, int_str(self.x as int)),
            ("y"@, int_str(self.y as int)),
        ]
    }

    /// Whether the text form reads back as this message: each flags value
    /// has only bits that have a name
    pub open spec fn spec_text_ok(&self) -> bool {
        true
    }

    /// Whether this message holds the fields read from text arguments `a`
    pub open spec fn spec_reads_text(&self, a: ArgsView) -> bool {
        &&& self.x == parse_u32(args_get(a, "x"@)) as i32
        &&& self.y == parse_u32(args_get(a, "y"@)) as i32
    }

    fn to_text(&self, txt: TextMessage) -> (r: TextMessage)
        ensures
            r.user_id == txt.user_id,
            r.name@ == txt.name@,
            r.dabs_view() == txt.dabs_view(),
            r.args_view() == args_set_all(txt.args_view(), self.spec_text_pairs()),
    {
        let ghost a = txt.args_view();
        let r = txt.set_dec("x", self.x as i64).set_dec("y", self.y as i64);
        proof {
            reveal_with_fuel(args_set_all, 3);
            let p = self.spec_text_pairs();
            assert(p.take(2).drop_last() =~= p.take(1));
            assert(p.take(1).drop_last() =~= p.take(0));
            assert(p.take(2) =~= p);
        }
        r
    }

    fn from_text(tm: &TextMessage) -> (r: Self)
        ensures
            r.spec_reads_text(tm.args_view()),
    {
        let x = tm.get_u32("x") as i32;
        let y = tm.get_u32("y") as i32;
        Self { x, y }
    }

    /// The text form reads back as this message
    pub proof fn lemma_text_roundtrip(&self)
        requires
            self.spec_text_ok(),
        ensures
            self.spec_reads_text(args_set_all(ArgsView::empty(), self.spec_text_pairs())),
            keys_ok(args_set_all(ArgsView::empty(), self.spec_text_pairs())),
    {
        let p = self.spec_text_pairs();
        reveal_strlit("x");
        reveal_strlit("y");
        assert("x"@.len() == 1);
        assert("y"@.len() == 1);
        assert("x"@[0] != "y"@[0]);
        lemma_set_all_keys_ok(p);
        lemma_get_all(p, 0);
        lemma_parse_i32_str(self.x);
        lemma_get_all(p, 1);
        lemma_parse_i32_str(self.y);
    }

    /// The text form holds each field under its own name (x, y)
    pub proof fn lemma_text_fields(&self)
        ensures
            args_get(args_set_all(ArgsView::empty(), self.spec_text_pairs()), "x"@) == int_str(self.x as int),
            args_get(args_set_all(ArgsView::empty(), self.spec_text_pairs()), "y"@) == int_str(self.y as int),
    {
        let p = self.spec_text_pairs();
        reveal_strlit("x");
        reveal_strlit("y");
        assert("x"@.len() == 1);
        assert("y"@.len() == 1);
        assert("x"@[0] != "y"@[0]);
        lemma_get_all(p, 0);
        lemma_get_all(p, 1);
    }
}

impl LayerACLMessage {
    /// The arguments of the text form, in the order they are written
    pub open spec fn spec_text_pairs(&self) -> ArgsView {
        seq![
            ("id"@, int_str(self.id as int)),
            ("flags"@, int_str(self.flags as int)),
            ("exclusive"@, u8_list_str(self.exclusive@)),
        ]
    }

    /// Whether the text form reads back as this message: each flags value
    /// has only bits that have a name
    pub open spec fn spec_text_ok(&self) -> bool {
        true
    }

    /// Whether this message holds the fields read from text arguments `a`
    pub open spec fn spec_reads_text(&self, a: ArgsView) -> bool {
        &&& self.id == parse_num(args_get(a, "id"@), 65535)
        &&& self.flags == parse_num(args_get(a, "flags"@), 255)
        &&& list_reads_u8(self.exclusive@, parse_num_list(args_get(a, "exclusive"@), 255))
    }

    fn to_text(&self, txt: TextMessage) -> (r: TextMessage)
        ensures
            r.user_id == txt.user_id,
            r.name@ == txt.name@,
            r.dabs_view() == txt.dabs_view(),
            r.args_view() == args_set_all(txt.args_view(), self.spec_text_pairs()),
    {
        let ghost a = txt.args_view();
        let r = txt.set_dec("id", self.id as i64).set_dec("flags", self.flags as i64).set_vec_u8("exclusive", self.exclusive.as_slice());
        proof {
            reveal_with_fuel(args_set_all, 4);
            let p = self.spec_text_pairs();
            assert(p.take(3).drop_last() =~= p.take(2));
            assert(p.take(2).drop_last() =~= p.take(1));
            assert(p.take(1).drop_last() =~= p.take(0));
            assert(p.take(3) =~= p);
        }
        r
    }

    fn from_text(tm: &TextMessage) -> (r: Self)
        ensures
            r.spec_reads_text(tm.args_view()),
    {
        let id = tm.get_u16("id");
        let flags = tm.get_u8("flags");
        let exclusive = tm.get_vec_u8("exclusive");
        Self { id, flags, exclusive }
    }

    /// The text form reads back as this message
    pub proof fn lemma_text_roundtrip(&self)
        requires
            self.spec_text_ok(),
        ensures
            self.spec_reads_text(args_set_all(ArgsView::empty(), self.spec_text_pairs())),
            keys_ok(args_set_all(ArgsView::empty(), self.spec_text_pairs())),
    {
        let p = self.spec_text_pairs();
        reveal_strlit("id");
        reveal_strlit("flags");
        reveal_strlit("exclusive");
        assert("exclusive"@.len() == 9);
        assert("flags"@.len() == 5);
        assert("id"@.len() == 2);
        lemma_set_all_keys_ok(p);
        lemma_get_all(p, 0);
        lemma_parse_num_dec(self.id as nat, 65535);
        lemma_get_all(p, 1);
        lemma_parse_num_dec(self.flags as nat, 255);
        lemma_get_all(p, 2);
        lemma_u8_list(self.exclusive@);
    }

    /// The text form holds each field under its own name (id, flags, exclusive)
    pub proof fn lemma_text_fields(&self)
        ensures
            args_get(args_set_all(ArgsView::empty(), self.spec_text_pairs()), "id"@) == int_str(self.id as int),
            args_get(args_set_all(ArgsView::empty(), self.spec_text_pairs()), "flags"@) == int_str(self.flags as int),
            args_get(args_set_all(ArgsView::empty(), self.spec_text_pairs()), "exclusive"@) == u8_list_str(self.exclusive@),
    {
        let p = self.spec_text_pairs();
        reveal_strlit("id");
        reveal_strlit("flags");
        reveal_strlit("exclusive");
        assert("exclusive"@.len() == 9);
        assert("flags"@.len() == 5);
        assert("id"@.len() == 2);
        lemma_get_all(p, 0);
        lemma_get_all(p, 1);
        lemma_get_all(p, 2);
    }
}

impl CanvasResizeMessage {
    /// The arguments of the text form, in the order they are written
    pub open spec fn spec_text_pairs(&self) -> ArgsView {
        seq![
            ("top"@, int_str(self.top as int)),
            ("right"@, int_str(self.right as int)),
            ("bottom"@, int_str(self.bottom as int)),
            ("left"@, int_str(self.left as int)),
        ]
    }

    /// Whether the text form reads back as this message: each flags value
    /// has only bits that have a name
    pub open spec fn spec_text_ok(&self) -> bool {
        true
    }

    /// Whether this message holds the fields read from text arguments `a`
    pub open spec fn spec_reads_text(&self, a: ArgsView) -> bool {
        &&& self.top == parse_u32(args_get(a, "top"@)) as i32
        &&& self.right == parse_u32(args_get(a, "right"@)) as i32
        &&& self.bottom == parse_u32(args_get(a, "bottom"@)) as i32
        &&& self.left == parse_u32(args_get(a, "left"@)) as i32
    }

    fn to_text(&self, txt: TextMessage) -> (r: TextMessage)
        ensures
            r.user_id == txt.user_id,
            r.name@ == txt.name@,
            r.dabs_view() == txt.dabs_view(),
            r.args_view() == args_set_all(txt.args_view(), self.spec_text_pairs()),
    {
        let ghost a = txt.args_view();
        let r = txt.set_dec("top", self.top as i64).set_dec("right", self.right as i64).set_dec("bottom", self.bottom as i64).set_dec("left", self.left as i64);
        proof {
            reveal_with_fuel(args_set_all, 5);
            let p = self.spec_text_pairs();
            assert(p.take(4).drop_last() =~= p.take(3));
            assert(p.take(3).drop_last() =~= p.take(2));
            assert(p.take(2).drop_last() =~= p.take(1));
            assert(p.take(1).drop_last() =~= p.take(0));
            assert(p.take(4) =~= p);
        }
        r
    }

    fn from_text(tm: &TextMessage) -> (r: Self)
        ensures
            r.spec_reads_text(tm.args_view()),
    {
        let top = tm.get_u32("top") as i32;
        let right = tm.get_u32("right") as i32;
        let bottom = tm.get_u32("bottom") as i32;
        let left = tm.get_u32("left") as i32;
        Self { top, right, bottom, left }
    }

    /// The text form reads back as this message
    pub proof fn lemma_text_roundtrip(&self)
        requires
            self.spec_text_ok(),
        ensures
            self.spec_reads_text(args_set_all(ArgsView::empty(), self.spec_text_pairs())),
            keys_ok(args_set_all(ArgsView::empty(), self.spec_text_pairs())),
    {
        let p = self.spec_text_pairs();
        reveal_strlit("top");
        reveal_strlit("right");
        reveal_strlit("bottom");
        reveal_strlit("left");
        assert("bottom"@.len() == 6);
        assert("left"@.len() == 4);
        assert("right"@.len() == 5);
        assert("top"@.len() == 3);
        lemma_set_all_keys_ok(p);
        lemma_get_all(p, 0);
        lemma_parse_i32_str(self.top);
        lemma_get_all(p, 1);
        lemma_parse_i32_str(self.right);
        lemma_get_all(p, 2);
        lemma_parse_i32_str(self.bottom);
        lemma_get_all(p, 3);
        lemma_parse_i32_str(self.left);
    }

    /// The text form holds each field under its own name (top, right, bottom, left)
    pub proof fn lemma_text_fields(&self)
        ensures
            args_get(args_set_all(ArgsView::empty(), self.spec_text_pairs()), "top"@) == int_str(self.top as int),
            args_get(args_set_all(ArgsView::empty(), self.spec_text_pairs()), "right"@) == int_str(self.right as int),
            args_get(args_set_all(ArgsView::empty(), self.spec_text_pairs()), "bottom"@) == int_str(self.bottom as int),
            args_get(args_set_all(ArgsView::empty(), self.spec_text_pairs()), "left"@) == int_str(self.left as int),
    {
        let p = self.spec_text_pairs();
        reveal_strlit("top");
        reveal_strlit("right");
        reveal_strlit("bottom");
        reveal_strlit("left");
        assert("bottom"@.len() == 6);
        assert("left"@.len() == 4);
        assert("right"@.len() == 5);
        assert("top"@.len() == 3);
        lemma_get_all(p, 0);
        lemma_get_all(p, 1);
        lemma_get_all(p, 2);
        lemma_get_all(p, 3);
    }
}

impl LayerCreateMessage {
    /// The arguments of the text form, in the order they are written
    pub open spec fn spec_text_pairs(&self) -> ArgsView {
        seq![
            ("id"@, hex16_str(self.id)),
            ("source"@, hex16_str(self.source)),
            ("fill"@, argb_str(self.fill)),
            ("flags"@, flags_str(seq!["copy"@, "insert"@], self.flags)),
            ("name"@, self.name@),
        ]
    }

    /// Whether the text form reads back as this message: each flags value
    /// has only bits that have a name
    pub open spec fn spec_text_ok(&self) -> bool {
        self.flags < 4
    }

    /// Whether this message holds the fields read from text arguments `a`
    pub open spec fn spec_reads_text(&self, a: ArgsView) -> bool {
        &&& self.id == parse_num(args_get(a, "id"@), 65535)
        &&& self.source == parse_num(args_get(a, "source"@), 65535)
        &&& self.fill == parse_argb(args_get(a, "fill"@))
        &&& self.flags == parse_flags(seq!["copy"@, "insert"@], args_get(a, "flags"@))
        &&& self.name@ == args_get(a, "name"@)
    }

    fn to_text(&self, txt: TextMessage) -> (r: TextMessage)
        ensures
            r.user_id == txt.user_id,
            r.name@ == txt.name@,
            r.dabs_view() == txt.dabs_view(),
            r.args_view() == args_set_all(txt.args_view(), self.spec_text_pairs()),
    {
        let names: [&str; 2] = ["copy", "insert"];
        assert(names_view(names@) =~= seq!["copy"@, "insert"@]);
        let ghost a = txt.args_view();
        let r = txt.set_hex16("id", self.id).set_hex16("source", self.source).set_argb32("fill", self.fill).set_flags("flags", names.as_slice(), self.flags).set("name", self.name.clone());
        proof {
            reveal_with_fuel(args_set_all, 6);
            let p = self.spec_text_pairs();
            assert(p.take(5).drop_last() =~= p.take(4));
            assert(p.take(4).drop_last() =~= p.take(3));
            assert(p.take(3).drop_last() =~= p.take(2));
            assert(p.take(2).drop_last() =~= p.take(1));
            assert(p.take(1).drop_last() =~= p.take(0));
            assert(p.take(5) =~= p);
        }
        r
    }

    fn from_text(tm: &TextMessage) -> (r: Self)
        ensures
            r.spec_reads_text(tm.args_view()),
    {
        let names: [&str; 2] = ["copy", "insert"];
        assert(names_view(names@) =~= seq!["copy"@, "insert"@]);
        let id = tm.get_u16("id");
        let source = tm.get_u16("source");
        let fill = tm.get_argb32("fill");
        let flags = tm.get_flags(names.as_slice(), "flags");
        let name = tm.get_str("name");
        Self { id, source, fill, flags, name }
    }

    /// The text form reads back as this message
    pub proof fn lemma_text_roundtrip(&self)
        requires
            self.spec_text_ok(),
        ensures
            self.spec_reads_text(args_set_all(ArgsView::empty(), self.spec_text_pairs())),
            keys_ok(args_set_all(ArgsView::empty(), self.spec_text_pairs())),
    {
        let p = self.spec_text_pairs();
        reveal_strlit("id");
        reveal_strlit("source");
        reveal_strlit("fill");
        reveal_strlit("flags");
        reveal_strlit("name");
        assert("fill"@.len() == 4);
        assert("flags"@.len() == 5);
        assert("id"@.len() == 2);
        assert("name"@.len() == 4);
        assert("source"@.len() == 6);
        assert("fill"@[0] != "name"@[0]);
        reveal_strlit("copy");
        assert("copy"@.len() == 4);
        reveal_strlit("insert");
        assert("insert"@.len() == 6);
        assert(!"copy"@.contains(','));
        lemma2_to64();
        lemma_set_all_keys_ok(p);
        lemma_get_all(p, 0);
        lemma_parse_hex16(self.id);
        lemma_get_all(p, 1);
        lemma_parse_hex16(self.source);
        lemma_get_all(p, 2);
        lemma_parse_argb(self.fill);
        lemma_get_all(p, 3);
        lemma_flags_roundtrip(seq!["copy"@, "insert"@], self.flags);
        lemma_get_all(p, 4);
    }

    /// The text form holds each field under its own name (id, source, fill, flags, name)
    pub proof fn lemma_text_fields(&self)
        ensures
            args_get(args_set_all(ArgsView::empty(), self.spec_text_pairs()), "id"@) == hex16_str(self.id),
            args_get(args_set_all(ArgsView::empty(), self.spec_text_pairs()), "source"@) == hex16_str(self.source),
            args_get(args_set_all(ArgsView::empty(), self.spec_text_pairs()), "fill"@) == argb_str(self.fill),
            args_get(args_set_all(ArgsView::empty(), self.spec_text_pairs()), "flags"@) == flags_str(seq!["copy"@, "insert"@], self.flags),
            args_get(args_set_all(ArgsView::empty(), self.spec_text_pairs()), "name"@) == self.name@,
    {
        let p = self.spec_text_pairs();
        reveal_strlit("id");
        reveal_strlit("source");
        reveal_strlit("fill");
        reveal_strlit("flags");
        reveal_strlit("name");
        assert("fill"@.len() == 4);
        assert("flags"@.len() == 5);
        assert("id"@.len() == 2);
        assert("name"@.len() == 4);
        assert("source"@.len() == 6);
        assert("fill"@[0] != "name"@[0]);
        reveal_strlit("copy");
        assert("copy"@.len() == 4);
        reveal_strlit("insert");
        assert("insert"@.len() == 6);
        assert(!"copy"@.contains(','));
        lemma2_to64();
        lemma_get_all(p, 0);
        lemma_get_all(p, 1);
        lemma_get_all(p, 2);
        lemma_get_all(p, 3);
        lemma_get_all(p, 4);
    }
}

impl LayerAttributesMessage {
    /// The arguments of the text form, in the order they are written
    pub open spec fn spec_text_pairs(&self) -> ArgsView {
        seq![
            ("id"@, hex16_str(self.id)),
            ("sublayer"@, int_str(self.sublayer as int)),
            ("flags"@, flags_str(seq!["censor"@, "fixed"@], self.flags)),
            ("opacity"@, int_str(self.opacity as int)),
            ("blend"@, int_str(self.blend as int)),
        ]
    }

    /// Whether the text form reads back as this message: each flags value
    /// has only bits that have a name
    pub open spec fn spec_text_ok(&self) -> bool {
        self.flags < 4
    }

    /// Whether this message holds the fields read from text arguments `a`
    pub open spec fn spec_reads_text(&self, a: ArgsView) -> bool {
        &&& self.id == parse_num(args_get(a, "id"@), 65535)
        &&& self.sublayer == parse_num(args_get(a, "sublayer"@), 255)
        &&& self.flags == parse_flags(seq!["censor"@, "fixed"@], args_get(a, "flags"@))
        &&& self.opacity == parse_num(args_get(a, "opacity"@), 255)
        &&& self.blend == parse_num(args_get(a, "blend"@), 255)
    }

    fn to_text(&self, txt: TextMessage) -> (r: TextMessage)
        ensures
            r.user_id == txt.user_id,
            r.name@ == txt.name@,
            r.dabs_view() == txt.dabs_view(),
            r.args_view() == args_set_all(txt.args_view(), self.spec_text_pairs()),
    {
        let names: [&str; 2] = ["censor", "fixed"];
        assert(names_view(names@) =~= seq!["censor"@, "fixed"@]);
        let ghost a = txt.args_view();
        let r = txt.set_hex16("id", self.id).set_dec("sublayer", self.sublayer as i64).set_flags("flags", names.as_slice(), self.flags).set_dec("opacity", self.opacity as i64).set_dec("blend", self.blend as i64);
        proof {
            reveal_with_fuel(args_set_all, 6);
            let p = self.spec_text_pairs();
            assert(p.take(5).drop_last() =~= p.take(4));
            assert(p.take(4).drop_last() =~= p.take(3));
            assert(p.take(3).drop_last() =~= p.take(2));
            assert(p.take(2).drop_last() =~= p.take(1));
            assert(p.take(1).drop_last() =~= p.take(0));
            assert(p.take(5) =~= p);
        }
        r
    }

    fn from_text(tm: &TextMessage) -> (r: Self)
        ensures
            r.spec_reads_text(tm.args_view()),
    {
        let names: [&str; 2] = ["censor", "fixed"];
        assert(names_view(names@) =~= seq!["censor"@, "fixed"@]);
        let id = tm.get_u16("id");
        let sublayer = tm.get_u8("sublayer");
        let flags = tm.get_flags(names.as_slice(), "flags");
        let opacity = tm.get_u8("opacity");
        let blend = tm.get_u8("blend");
        Self { id, sublayer, flags, opacity, blend }
    }

    /// The text form reads back as this message
    pub proof fn lemma_text_roundtrip(&self)
        requires
            self.spec_text_ok(),
        ensures
            self.spec_reads_text(args_set_all(ArgsView::empty(), self.spec_text_pairs())),
            keys_ok(args_set_all(ArgsView::empty(), self.spec_text_pairs())),
    {
        let p = self.spec_text_pairs();
        reveal_strlit("id");
        reveal_strlit("sublayer");
        reveal_strlit("flags");
        reveal_strlit("opacity");
        reveal_strlit("blend");
        assert("blend"@.len() == 5);
        assert("flags"@.len() == 5);
        assert("id"@.len() == 2);
        assert("opacity"@.len() == 7);
        assert("sublayer"@.len() == 8);
        assert("flags"@[0] != "blend"@[0]);
        reveal_strlit("censor");
        assert("censor"@.len() == 6);
        reveal_strlit("fixed");
        assert("fixed"@.len() == 5);
        assert(!"censor"@.contains(','));
        lemma2_to64();
        lemma_set_all_keys_ok(p);
        lemma_get_all(p, 0);
        lemma_parse_hex16(self.id);
        lemma_get_all(p, 1);
        lemma_parse_num_dec(self.sublayer as nat, 255);
        lemma_get_all(p, 2);
        lemma_flags_roundtrip(seq!["censor"@, "fixed"@], self.flags);
        lemma_get_all(p, 3);
        lemma_parse_num_dec(self.opacity as nat, 255);
        lemma_get_all(p, 4);
        lemma_parse_num_dec(self.blend as nat, 255);
    }

    /// The text form holds each field under its own name (id, sublayer, flags, opacity, blend)
    pub proof fn lemma_text_fields(&self)
        ensures
            args_get(args_set_all(ArgsView::empty(), self.spec_text_pairs()), "id"@) == hex16_str(self.id),
            args_get(args_set_all(ArgsView::empty(), self.spec_text_pairs()), "sublayer"@) == int_str(self.sublayer as int),
            args_get(args_set_all(ArgsView::empty(), self.spec_text_pairs()), "flags"@) == flags_str(seq!["censor"@, "fixed"@], self.flags),
            args_get(args_set_all(ArgsView::empty(), self.spec_text_pairs()), "opacity"@) == int_str(self.opacity as int),
            args_get(args_set_all(ArgsView::empty(), self.spec_text_pairs()), "blend"@) == int_str(self.blend as int),
    {
        let p = self.spec_text_pairs();
        reveal_strlit("id");
        reveal_strlit("sublayer");
        reveal_strlit("flags");
        reveal_strlit("opacity");
        reveal_strlit("blend");
        assert("blend"@.len() == 5);
        assert("flags"@.len() == 5);
        assert("id"@.len() == 2);
        assert("opacity"@.len() == 7);
        assert("sublayer"@.len() == 8);
        assert("flags"@[0] != "blend"@[0]);
        reveal_strlit("censor");
        assert("censor"@.len() == 6);
        reveal_strlit("fixed");
        assert("fixed"@.len() == 5);
        assert(!"censor"@.contains(','));
        lemma2_to64();
        lemma_get_all(p, 0);
        lemma_get_all(p, 1);
        lemma_get_all(p, 2);
        lemma_get_all(p, 3);
        lemma_get_all(p, 4);
    }
}

impl LayerRetitleMessage {
    /// The arguments of the text form, in the order they are written
    pub open spec fn spec_text_pairs(&self) -> ArgsView {
        seq![
            ("id"@, hex16_str(self.id)),
            ("title"@, self.title@),
        ]
    }

    /// Whether the text form reads back as this message: each flags value
    /// has only bits that have a name
    pub open spec fn spec_text_ok(&self) -> bool {
        true
    }

    /// Whether this message holds the fields read from text arguments `a`
    pub open spec fn spec_reads_text(&self, a: ArgsView) -> bool {
        &&& self.id == parse_num(args_get(a, "id"@), 65535)
        &&& self.title@ == args_get(a, "title"@)
    }

    fn to_text(&self, txt: TextMessage) -> (r: TextMessage)
        ensures
            r.user_id == txt.user_id,
            r.name@ == txt.name@,
            r.dabs_view() == txt.dabs_view(),
            r.args_view() == args_set_all(txt.args_view(), self.spec_text_pairs()),
    {
        let ghost a = txt.args_view();
        let r = txt.set_hex16("id", self.id).set("title", self.title.clone());
        proof {
            reveal_with_fuel(args_set_all, 3);
            let p = self.spec_text_pairs();
            assert(p.take(2).drop_last() =~= p.take(1));
            assert(p.take(1).drop_last() =~= p.take(0));
            assert(p.take(2) =~= p);
        }
        r
    }

    fn from_text(tm: &TextMessage) -> (r: Self)
        ensures
            r.spec_reads_text(tm.args_view()),
    {
        let id = tm.get_u16("id");
        let title = tm.get_str("title");
        Self { id, title }
    }

    /// The text form reads back as this message
    pub proof fn lemma_text_roundtrip(&self)
        requires
            self.spec_text_ok(),
        ensures
            self.spec_reads_text(args_set_all(ArgsView::empty(), self.spec_text_pairs())),
            keys_ok(args_set_all(ArgsView::empty(), self.spec_text_pairs())),
    {
        let p = self.spec_text_pairs();
        reveal_strlit("id");
        reveal_strlit("title");
        assert("id"@.len() == 2);
        assert("title"@.len() == 5);
        lemma_set_all_keys_ok(p);
        lemma_get_all(p, 0);
        lemma_parse_hex16(self.id);
        lemma_get_all(p, 1);
    }

    /// The text form holds each field under its own name (id, title)
    pub proof fn lemma_text_fields(&self)
        ensures
            args_get(args_set_all(ArgsView::empty(), self.spec_text_pairs()), "id"@) == hex16_str(self.id),
            args_get(args_set_all(ArgsView::empty(), self.spec_text_pairs()), "title"@) == self.title@,
    {
        let p = self.spec_text_pairs();
        reveal_strlit("id");
        reveal_strlit("title");
        assert("id"@.len() == 2);
        assert("title"@.len() == 5);
        lemma_get_all(p, 0);
        lemma_get_all(p, 1);
    }
}

impl LayerDeleteMessage {
    /// The arguments of the text form, in the order they are written
    pub open spec fn spec_text_pairs(&self) -> ArgsView {
        seq![
            ("id"@, hex16_str(self.id)),
            ("merge"@, bool_str(self.merge)),
        ]
    }

    /// Whether the text form reads back as this message: each flags value
    /// has only bits that have a name
    pub open spec fn spec_text_ok(&self) -> bool {
        true
    }

    /// Whether this message holds the fields read from text arguments `a`
    pub open spec fn spec_reads_text(&self, a: ArgsView) -> bool {
        &&& self.id == parse_num(args_get(a, "id"@), 65535)
        &&& self.merge == (args_get(a, "merge"@) == "true"@)
    }

    fn to_text(&self, txt: TextMessage) -> (r: TextMessage)
        ensures
            r.user_id == txt.user_id,
            r.name@ == txt.name@,
            r.dabs_view() == txt.dabs_view(),
            r.args_view() == args_set_all(txt.args_view(), self.spec_text_pairs()),
    {
        let ghost a = txt.args_view();
        let r = txt.set_hex16("id", self.id).set_bool("merge", self.merge);
        proof {
            reveal_with_fuel(args_set_all, 3);
            let p = self.spec_text_pairs();
            assert(p.take(2).drop_last() =~= p.take(1));
            assert(p.take(1).drop_last() =~= p.take(0));
            assert(p.take(2) =~= p);
        }
        r
    }

    fn from_text(tm: &TextMessage) -> (r: Self)
        ensures
            r.spec_reads_text(tm.args_view()),
    {
        let id = tm.get_u16("id");
        let merge = tm.get_bool("merge");
        Self { id, merge }
    }

    /// The text form reads back as this message
    pub proof fn lemma_text_roundtrip(&self)
        requires
            self.spec_text_ok(),
        ensures
            self.spec_reads_text(args_set_all(ArgsView::empty(), self.spec_text_pairs())),
            keys_ok(args_set_all(ArgsView::empty(), self.spec_text_pairs())),
    {
        let p = self.spec_text_pairs();
        reveal_strlit("id");
        reveal_strlit("merge");
        assert("id"@.len() == 2);
        assert("merge"@.len() == 5);
        lemma_set_all_keys_ok(p);
        lemma_get_all(p, 0);
        lemma_parse_hex16(self.id);
        lemma_get_all(p, 1);
        lemma_bool_str(self.merge);
    }

    /// The text form holds each field under its own name (id, merge)
    pub proof fn lemma_text_fields(&self)
        ensures
            args_get(args_set_all(ArgsView::empty(), self.spec_text_pairs()), "id"@) == hex16_str(self.id),
            args_get(args_set_all(ArgsView::empty(), self.spec_text_pairs()), "merge"@) == bool_str(self.merge),
    {
        let p = self.spec_text_pairs();
        reveal_strlit("id");
        reveal_strlit("merge");
        assert("id"@.len() == 2);
        assert("merge"@.len() == 5);
        lemma_get_all(p, 0);
        lemma_get_all(p, 1);
    }
}

impl LayerVisibilityMessage {
    /// The arguments of the text form, in the order they are written
    pub open spec fn spec_text_pairs(&self) -> ArgsView {
        seq![
            ("id"@, hex16_str(self.id)),
            ("visible"@, bool_str(self.visible)),
        ]
    }

    /// Whether the text form reads back as this message: each flags value
    /// has only bits that have a name
    pub open spec fn spec_text_ok(&self) -> bool {
        true
    }

    /// Whether this message holds the fields read from text arguments `a`
    pub open spec fn spec_reads_text(&self, a: ArgsView) -> bool {
        &&& self.id == parse_num(args_get(a, "id"@), 65535)
        &&& self.visible == (args_get(a, "visible"@) == "true"@)
    }

    fn to_text(&self, txt: TextMessage) -> (r: TextMessage)
        ensures
            r.user_id == txt.user_id,
            r.name@ == txt.name@,
            r.dabs_view() == txt.dabs_view(),
            r.args_view() == args_set_all(txt.args_view(), self.spec_text_pairs()),
    {
        let ghost a = txt.args_view();
        let r = txt.set_hex16("id", self.id).set_bool("visible", self.visible);
        proof {
            reveal_with_fuel(args_set_all, 3);
            let p = self.spec_text_pairs();
            assert(p.take(2).drop_last() =~= p.take(1));
            assert(p.take(1).drop_last() =~= p.take(0));
            assert(p.take(2) =~= p);
        }
        r
    }

    fn from_text(tm: &TextMessage) -> (r: Self)
        ensures
            r.spec_reads_text(tm.args_view()),
    {
        let id = tm.get_u16("id");
        let visible = tm.get_bool("visible");
        Self { id, visible }
    }

    /// The text form reads back as this message
    pub proof fn lemma_text_roundtrip(&self)
        requires
            self.spec_text_ok(),
        ensures
            self.spec_reads_text(args_set_all(ArgsView::empty(), self.spec_text_pairs())),
            keys_ok(args_set_all(ArgsView::empty(), self.spec_text_pairs())),
    {
        let p = self.spec_text_pairs();
        reveal_strlit("id");
        reveal_strlit("visible");
        assert("id"@.len() == 2);
        assert("visible"@.len() == 7);
        lemma_set_all_keys_ok(p);
        lemma_get_all(p, 0);
        lemma_parse_hex16(self.id);
        lemma_get_all(p, 1);
        lemma_bool_str(self.visible);
    }

    /// The text form holds each field under its own name (id, visible)
    pub proof fn lemma_text_fields(&self)
        ensures
            args_get(args_set_all(ArgsView::empty(), self.spec_text_pairs()), "id"@) == hex16_str(self.id),
            args_get(args_set_all(ArgsView::empty(), self.spec_text_pairs()), "visible"@) == bool_str(self.visible),
    {
        let p = self.spec_text_pairs();
        reveal_strlit("id");
        reveal_strlit("visible");
        assert("id"@.len() == 2);
        assert("visible"@.len() == 7);
        lemma_get_all(p, 0);
        lemma_get_all(p, 1);
    }
}

impl PutImageMessage {
    /// The arguments of the text form, in the order they are written
    pub open spec fn spec_text_pairs(&self) -> ArgsView {
        seq![
            ("layer"@, hex16_str(self.layer)),
            ("mode"@, int_str(self.mode as int)),
            ("x"@, int_str(self.x as int)),
            ("y"@, int_str(self.y as int)),
            ("w"@, int_str(self.w as int)),
            ("h"@, int_str(self.h as int)),
            ("image"@, base64_encode(self.image@)),
        ]
    }

    /// Whether the text form reads back as this message: each flags value
    /// has only bits that have a name
    pub open spec fn spec_text_ok(&self) -> bool {
        true
    }

    /// Whether this message holds the fields read from text arguments `a`
    pub open spec fn spec_reads_text(&self, a: ArgsView) -> bool {
        &&& self.layer == parse_num(args_get(a, "layer"@), 65535)
        &&& self.mode == parse_num(args_get(a, "mode"@), 255)
        &&& self.x == parse_u32(args_get(a, "x"@))
        &&& self.y == parse_u32(args_get(a, "y"@))
        &&& self.w == parse_u32(args_get(a, "w"@))
        &&& self.h == parse_u32(args_get(a, "h"@))
        &&& self.image@ == parse_bytes(args_get(a, "image"@))
    }

    fn to_text(&self, txt: TextMessage) -> (r: TextMessage)
        ensures
            r.user_id == txt.user_id,
            r.name@ == txt.name@,
            r.dabs_view() == txt.dabs_view(),
            r.args_view() == args_set_all(txt.args_view(), self.spec_text_pairs()),
    {
        let ghost a = txt.args_view();
        let r = txt.set_hex16("layer", self.layer).set_dec("mode", self.mode as i64).set_dec("x", self.x as i64).set_dec("y", self.y as i64).set_dec("w", self.w as i64).set_dec("h", self.h as i64).set_bytes("image", self.image.as_slice());
        proof {
            reveal_with_fuel(args_set_all, 8);
            let p = self.spec_text_pairs();
            assert(p.take(7).drop_last() =~= p.take(6));
            assert(p.take(6).drop_last() =~= p.take(5));
            assert(p.take(5).drop_last() =~= p.take(4));
            assert(p.take(4).drop_last() =~= p.take(3));
            assert(p.take(3).drop_last() =~= p.take(2));
            assert(p.take(2).drop_last() =~= p.take(1));
            assert(p.take(1).drop_last() =~= p.take(0));
            assert(p.take(7) =~= p);
        }
        r
    }

    fn from_text(tm: &TextMessage) -> (r: Self)
        ensures
            r.spec_reads_text(tm.args_view()),
    {
        let layer = tm.get_u16("layer");
        let mode = tm.get_u8("mode");
        let x = tm.get_u32("x");
        let y = tm.get_u32("y");
        let w = tm.get_u32("w");
        let h = tm.get_u32("h");
        let image = tm.get_bytes("image");
        Self { layer, mode, x, y, w, h, image }
    }

    /// The text form reads back as this message
    pub proof fn lemma_text_roundtrip(&self)
        requires
            self.spec_text_ok(),
        ensures
            self.spec_reads_text(args_set_all(ArgsView::empty(), self.spec_text_pairs())),
            keys_ok(args_set_all(ArgsView::empty(), self.spec_text_pairs())),
    {
        let p = self.spec_text_pairs();
        reveal_strlit("layer");
        reveal_strlit("mode");
        reveal_strlit("x");
        reveal_strlit("y");
        reveal_strlit("w");
        reveal_strlit("h");
        reveal_strlit("image");
        assert("h"@.len() == 1);
        assert("image"@.len() == 5);
        assert("layer"@.len() == 5);
        assert("mode"@.len() == 4);
        assert("w"@.len() == 1);
        assert("x"@.len() == 1);
        assert("y"@.len() == 1);
        assert("layer"@[0] != "image"@[0]);
        assert("x"@[0] != "y"@[0]);
        assert("x"@[0] != "w"@[0]);
        assert("x"@[0] != "h"@[0]);
        assert("y"@[0] != "w"@[0]);
        assert("y"@[0] != "h"@[0]);
        assert("w"@[0] != "h"@[0]);
        lemma_set_all_keys_ok(p);
        lemma_get_all(p, 0);
        lemma_parse_hex16(self.layer);
        lemma_get_all(p, 1);
        lemma_parse_num_dec(self.mode as nat, 255);
        lemma_get_all(p, 2);
        lemma_parse_u32_str(self.x);
        lemma_get_all(p, 3);
        lemma_parse_u32_str(self.y);
        lemma_get_all(p, 4);
        lemma_parse_u32_str(self.w);
        lemma_get_all(p, 5);
        lemma_parse_u32_str(self.h);
        lemma_get_all(p, 6);
        lemma_base64_roundtrip(self.image@);
    }

    /// The text form holds each field under its own name (layer, mode, x, y, w, h, image)
    pub proof fn lemma_text_fields(&self)
        ensures
            args_get(args_set_all(ArgsView::empty(), self.spec_text_pairs()), "layer"@) == hex16_str(self.layer),
            args_get(args_set_all(ArgsView::empty(), self.spec_text_pairs()), "mode"@) == int_str(self.mode as int),
            args_get(args_set_all(ArgsView::empty(), self.spec_text_pairs()), "x"@) == int_str(self.x as int),
            args_get(args_set_all(ArgsView::empty(), self.spec_text_pairs()), "y"@) == int_str(self.y as int),
            args_get(args_set_all(ArgsView::empty(), self.spec_text_pairs()), "w"@) == int_str(self.w as int),
            args_get(args_set_all(ArgsView::empty(), self.spec_text_pairs()), "h"@) == int_str(self.h as int),
            args_get(args_set_all(ArgsView::empty(), self.spec_text_pairs()), "image"@) == base64_encode(self.image@),
    {
        let p = self.spec_text_pairs();
        reveal_strlit("layer");
        reveal_strlit("mode");
        reveal_strlit("x");
        reveal_strlit("y");
        reveal_strlit("w");
        reveal_strlit("h");
        reveal_strlit("image");
        assert("h"@.len() == 1);
        assert("image"@.len() == 5);
        assert("layer"@.len() == 5);
        assert("mode"@.len() == 4);
        assert("w"@.len() == 1);
        assert("x"@.len() == 1);
        assert("y"@.len() == 1);
        assert("layer"@[0] != "image"@[0]);
        assert("x"@[0] != "y"@[0]);
        assert("x"@[0] != "w"@[0]);
        assert("x"@[0] != "h"@[0]);
        assert("y"@[0] != "w"@[0]);
        assert("y"@[0] != "h"@[0]);
        assert("w"@[0] != "h"@[0]);
        lemma_get_all(p, 0);
        lemma_get_all(p, 1);
        lemma_get_all(p, 2);
        lemma_get_all(p, 3);
        lemma_get_all(p, 4);
        lemma_get_all(p, 5);
        lemma_get_all(p, 6);
    }
}

impl FillRectMessage {
    /// The arguments of the text form, in the order they are written
    pub open spec fn spec_text_pairs(&self) -> ArgsView {
        seq![
            ("layer"@, hex16_str(self.layer)),
            ("mode"@, int_str(self.mode as int)),
            ("x"@, int_str(self.x as int)),
            ("y"@, int_str(self.y as int)),
            ("w"@, int_str(self.w as int)),
            ("h"@, int_str(self.h as int)),
            ("color"@, argb_str(self.color)),
        ]
    }

    /// Whether the text form reads back as this message: each flags value
    /// has only bits that have a name
    pub open spec fn spec_text_ok(&self) -> bool {
        true
    }

    /// Whether this message holds the fields read from text arguments `a`
    pub open spec fn spec_reads_text(&self, a: ArgsView) -> bool {
        &&& self.layer == parse_num(args_get(a, "layer"@), 65535)
        &&& self.mode == parse_num(args_get(a, "mode"@), 255)
        &&& self.x == parse_u32(args_get(a, "x"@))
        &&& self.y == parse_u32(args_get(a, "y"@))
        &&& self.w == parse_u32(args_get(a, "w"@))
        &&& self.h == parse_u32(args_get(a, "h"@))
        &&& self.color == parse_argb(args_get(a, "color"@))
    }

    fn to_text(&self, txt: TextMessage) -> (r: TextMessage)
        ensures
            r.user_id == txt.user_id,
            r.name@ == txt.name@,
            r.dabs_view() == txt.dabs_view(),
            r.args_view() == args_set_all(txt.args_view(), self.spec_text_pairs()),
    {
        let ghost a = txt.args_view();
        let r = txt.set_hex16("layer", self.layer).set_dec("mode", self.mode as i64).set_dec("x", self.x as i64).set_dec("y", self.y as i64).set_dec("w", self.w as i64).set_dec("h", self.h as i64).set_argb32("color", self.color);
        proof {
            reveal_with_fuel(args_set_all, 8);
            let p = self.spec_text_pairs();
            assert(p.take(7).drop_last() =~= p.take(6));
            assert(p.take(6).drop_last() =~= p.take(5));
            assert(p.take(5).drop_last() =~= p.take(4));
            assert(p.take(4).drop_last() =~= p.take(3));
            assert(p.take(3).drop_last() =~= p.take(2));
            assert(p.take(2).drop_last() =~= p.take(1));
            assert(p.take(1).drop_last() =~= p.take(0));
            assert(p.take(7) =~= p);
        }
        r
    }

    fn from_text(tm: &TextMessage) -> (r: Self)
        ensures
            r.spec_reads_text(tm.args_view()),
    {
        let layer = tm.get_u16("layer");
        let mode = tm.get_u8("mode");
        let x = tm.get_u32("x");
        let y = tm.get_u32("y");
        let w = tm.get_u32("w");
        let h = tm.get_u32("h");
        let color = tm.get_argb32("color");
        Self { layer, mode, x, y, w, h, color }
    }

    /// The text form reads back as this message
    pub proof fn lemma_text_roundtrip(&self)
        requires
            self.spec_text_ok(),
        ensures
            self.spec_reads_text(args_set_all(ArgsView::empty(), self.spec_text_pairs())),
            keys_ok(args_set_all(ArgsView::empty(), self.spec_text_pairs())),
    {
        let p = self.spec_text_pairs();
        reveal_strlit("layer");
        reveal_strlit("mode");
        reveal_strlit("x");
        reveal_strlit("y");
        reveal_strlit("w");
        reveal_strlit("h");
        reveal_strlit("color");
        assert("color"@.len() == 5);
        assert("h"@.len() == 1);
        assert("layer"@.len() == 5);
        assert("mode"@.len() == 4);
        assert("w"@.len() == 1);
        assert("x"@.len() == 1);
        assert("y"@.len() == 1);
        assert("layer"@[0] != "color"@[0]);
        assert("x"@[0] != "y"@[0]);
        assert("x"@[0] != "w"@[0]);
        assert("x"@[0] != "h"@[0]);
        assert("y"@[0] != "w"@[0]);
        assert("y"@[0] != "h"@[0]);
        assert("w"@[0] != "h"@[0]);
        lemma_set_all_keys_ok(p);
        lemma_get_all(p, 0);
        lemma_parse_hex16(self.layer);
        lemma_get_all(p, 1);
        lemma_parse_num_dec(self.mode as nat, 255);
        lemma_get_all(p, 2);
        lemma_parse_u32_str(self.x);
        lemma_get_all(p, 3);
        lemma_parse_u32_str(self.y);
        lemma_get_all(p, 4);
        lemma_parse_u32_str(self.w);
        lemma_get_all(p, 5);
        lemma_parse_u32_str(self.h);
        lemma_get_all(p, 6);
        lemma_parse_argb(self.color);
    }

    /// The text form holds each field under its own name (layer, mode, x, y, w, h, color)
    pub proof fn lemma_text_fields(&self)
        ensures
            args_get(args_set_all(ArgsView::empty(), self.spec_text_pairs()), "layer"@) == hex16_str(self.layer),
            args_get(args_set_all(ArgsView::empty(), self.spec_text_pairs()), "mode"@) == int_str(self.mode as int),
            args_get(args_set_all(ArgsView::empty(), self.spec_text_pairs()), "x"@) == int_str(self.x as int),
            args_get(args_set_all(ArgsView::empty(), self.spec_text_pairs()), "y"@) == int_str(self.y as int),
            args_get(args_set_all(ArgsView::empty(), self.spec_text_pairs()), "w"@) == int_str(self.w as int),
            args_get(args_set_all(ArgsView::empty(), self.spec_text_pairs()), "h"@) == int_str(self.h as int),
            args_get(args_set_all(ArgsView::empty(), self.spec_text_pairs()), "color"@) == argb_str(self.color),
    {
        let p = self.spec_text_pairs();
        reveal_strlit("layer");
        reveal_strlit("mode");
        reveal_strlit("x");
        reveal_strlit("y");
        reveal_strlit("w");
        reveal_strlit("h");
        reveal_strlit("color");
        assert("color"@.len() == 5);
        assert("h"@.len() == 1);
        assert("layer"@.len() == 5);
        assert("mode"@.len() == 4);
        assert("w"@.len() == 1);
        assert("x"@.len() == 1);
        assert("y"@.len() == 1);
        assert("layer"@[0] != "color"@[0]);
        assert("x"@[0] != "y"@[0]);
        assert("x"@[0] != "w"@[0]);
        assert("x"@[0] != "h"@[0]);
        assert("y"@[0] != "w"@[0]);
        assert("y"@[0] != "h"@[0]);
        assert("w"@[0] != "h"@[0]);
        lemma_get_all(p, 0);
        lemma_get_all(p, 1);
        lemma_get_all(p, 2);
        lemma_get_all(p, 3);
        lemma_get_all(p, 4);
        lemma_get_all(p, 5);
        lemma_get_all(p, 6);
    }

    /// Text holding numbers under `x`, `y`, `w` and `h` reads as a message
    /// with those numbers as its x and y coordinates, width and height
    pub proof fn lemma_text_reads_fields(m: FillRectMessage, a: ArgsView, x: u32, y: u32, w: u32, h: u32)
        requires
            m.spec_reads_text(a),
            args_get(a, "x"@) == int_str(x as int),
            args_get(a, "y"@) == int_str(y as int),
            args_get(a, "w"@) == int_str(w as int),
            args_get(a, "h"@) == int_str(h as int),
        ensures
            m.x == x,
            m.y == y,
            m.w == w,
            m.h == h,
    {
        lemma_parse_u32_str(x);
        lemma_parse_u32_str(y);
        lemma_parse_u32_str(w);
        lemma_parse_u32_str(h);
    }
}

impl AnnotationCreateMessage {
    /// The arguments of the text form, in the order they are written
    pub open spec fn spec_text_pairs(&self) -> ArgsView {
        seq![
            ("id"@, hex16_str(self.id)),
            ("x"@, int_str(self.x as int)),
            ("y"@, int_str(self.y as int)),
            ("w"@, int_str(self.w as int)),
            ("h"@, int_str(self.h as int)),
        ]
    }

    /// Whether the text form reads back as this message: each flags value
    /// has only bits that have a name
    pub open spec fn spec_text_ok(&self) -> bool {
        true
    }

    /// Whether this message holds the fields read from text arguments `a`
    pub open spec fn spec_reads_text(&self, a: ArgsView) -> bool {
        &&& self.id == parse_num(args_get(a, "id"@), 65535)
        &&& self.x == parse_u32(args_get(a, "x"@)) as i32
        &&& self.y == parse_u32(args_get(a, "y"@)) as i32
        &&& self.w == parse_num(args_get(a, "w"@), 65535)
        &&& self.h == parse_num(args_get(a, "h"@), 65535)
    }

    fn to_text(&self, txt: TextMessage) -> (r: TextMessage)
        ensures
            r.user_id == txt.user_id,
            r.name@ == txt.name@,
            r.dabs_view() == txt.dabs_view(),
            r.args_view() == args_set_all(txt.args_view(), self.spec_text_pairs()),
    {
        let ghost a = txt.args_view();
        let r = txt.set_hex16("id", self.id).set_dec("x", self.x as i64).set_dec("y", self.y as i64).set_dec("w", self.w as i64).set_dec("h", self.h as i64);
        proof {
            reveal_with_fuel(args_set_all, 6);
            let p = self.spec_text_pairs();
            assert(p.take(5).drop_last() =~= p.take(4));
            assert(p.take(4).drop_last() =~= p.take(3));
            assert(p.take(3).drop_last() =~= p.take(2));
            assert(p.take(2).drop_last() =~= p.take(1));
            assert(p.take(1).drop_last() =~= p.take(0));
            assert(p.take(5) =~= p);
        }
        r
    }

    fn from_text(tm: &TextMessage) -> (r: Self)
        ensures
            r.spec_reads_text(tm.args_view()),
    {
        let id = tm.get_u16("id");
        let x = tm.get_u32("x") as i32;
        let y = tm.get_u32("y") as i32;
        let w = tm.get_u16("w");
        let h = tm.get_u16("h");
        Self { id, x, y, w, h }
    }

    /// The text form reads back as this message
    pub proof fn lemma_text_roundtrip(&self)
        requires
            self.spec_text_ok(),
        ensures
            self.spec_reads_text(args_set_all(ArgsView::empty(), self.spec_text_pairs())),
            keys_ok(args_set_all(ArgsView::empty(), self.spec_text_pairs())),
    {
        let p = self.spec_text_pairs();
        reveal_strlit("id");
        reveal_strlit("x");
        reveal_strlit("y");
        reveal_strlit("w");
        reveal_strlit("h");
        assert("h"@.len() == 1);
        assert("id"@.len() == 2);
        assert("w"@.len() == 1);
        assert("x"@.len() == 1);
        assert("y"@.len() == 1);
        assert("x"@[0] != "y"@[0]);
        assert("x"@[0] != "w"@[0]);
        assert("x"@[0] != "h"@[0]);
        assert("y"@[0] != "w"@[0]);
        assert("y"@[0] != "h"@[0]);
        assert("w"@[0] != "h"@[0]);
        lemma_set_all_keys_ok(p);
        lemma_get_all(p, 0);
        lemma_parse_hex16(self.id);
        lemma_get_all(p, 1);
        lemma_parse_i32_str(self.x);
        lemma_get_all(p, 2);
        lemma_parse_i32_str(self.y);
        lemma_get_all(p, 3);
        lemma_parse_num_dec(self.w as nat, 65535);
        lemma_get_all(p, 4);
        lemma_parse_num_dec(self.h as nat, 65535);
    }

    /// The text form holds each field under its own name (id, x, y, w, h)
    pub proof fn lemma_text_fields(&self)
        ensures
            args_get(args_set_all(ArgsView::empty(), self.spec_text_pairs()), "id"@) == hex16_str(self.id),
            args_get(args_set_all(ArgsView::empty(), self.spec_text_pairs()), "x"@) == int_str(self.x as int),
            args_get(args_set_all(ArgsView::empty(), self.spec_text_pairs()), "y"@) == int_str(self.y as int),
            args_get(args_set_all(ArgsView::empty(), self.spec_text_pairs()), "w"@) == int_str(self.w as int),
            args_get(args_set_all(ArgsView::empty(), self.spec_text_pairs()), "h"@) == int_str(self.h as int),
    {
        let p = self.spec_text_pairs();
        reveal_strlit("id");
        reveal_strlit("x");
        reveal_strlit("y");
        reveal_strlit("w");
        reveal_strlit("h");
        assert("h"@.len() == 1);
        assert("id"@.len() == 2);
        assert("w"@.len() == 1);
        assert("x"@.len() == 1);
        assert("y"@.len() == 1);
        assert("x"@[0] != "y"@[0]);
        assert("x"@[0] != "w"@[0]);
        assert("x"@[0] != "h"@[0]);
        assert("y"@[0] != "w"@[0]);
        assert("y"@[0] != "h"@[0]);
        assert("w"@[0] != "h"@[0]);
        lemma_get_all(p, 0);
        lemma_get_all(p, 1);
        lemma_get_all(p, 2);
        lemma_get_all(p, 3);
        lemma_get_all(p, 4);
    }
}

impl AnnotationReshapeMessage {
    /// The arguments of the text form, in the order they are written
    pub open spec fn spec_text_pairs(&self) -> ArgsView {
        seq![
            ("id"@, hex16_str(self.id)),
            ("x"@, int_str(self.x as int)),
            ("y"@, int_str(self.y as int)),
            ("w"@, int_str(self.w as int)),
            ("h"@, int_str(self.h as int)),
        ]
    }

    /// Whether the text form reads back as this message: each flags value
    /// has only bits that have a name
    pub open spec fn spec_text_ok(&self) -> bool {
        true
    }

    /// Whether this message holds the fields read from text arguments `a`
    pub open spec fn spec_reads_text(&self, a: ArgsView) -> bool {
        &&& self.id == parse_num(args_get(a, "id"@), 65535)
        &&& self.x == parse_u32(args_get(a, "x"@)) as i32
        &&& self.y == parse_u32(args_get(a, "y"@)) as i32
        &&& self.w == parse_num(args_get(a, "w"@), 65535)
        &&& self.h == parse_num(args_get(a, "h"@), 65535)
    }

    fn to_text(&self, txt: TextMessage) -> (r: TextMessage)
        ensures
            r.user_id == txt.user_id,
            r.name@ == txt.name@,
            r.dabs_view() == txt.dabs_view(),
            r.args_view() == args_set_all(txt.args_view(), self.spec_text_pairs()),
    {
        let ghost a = txt.args_view();
        let r = txt.set_hex16("id", self.id).set_dec("x", self.x as i64).set_dec("y", self.y as i64).set_dec("w", self.w as i64).set_dec("h", self.h as i64);
        proof {
            reveal_with_fuel(args_set_all, 6);
            let p = self.spec_text_pairs();
            assert(p.take(5).drop_last() =~= p.take(4));
            assert(p.take(4).drop_last() =~= p.take(3));
            assert(p.take(3).drop_last() =~= p.take(2));
            assert(p.take(2).drop_last() =~= p.take(1));
            assert(p.take(1).drop_last() =~= p.take(0));
            assert(p.take(5) =~= p);
        }
        r
    }

    fn from_text(tm: &TextMessage) -> (r: Self)
        ensures
            r.spec_reads_text(tm.args_view()),
    {
        let id = tm.get_u16("id");
        let x = tm.get_u32("x") as i32;
        let y = tm.get_u32("y") as i32;
        let w = tm.get_u16("w");
        let h = tm.get_u16("h");
        Self { id, x, y, w, h }
    }

    /// The text form reads back as this message
    pub proof fn lemma_text_roundtrip(&self)
        requires
            self.spec_text_ok(),
        ensures
            self.spec_reads_text(args_set_all(ArgsView::empty(), self.spec_text_pairs())),
            keys_ok(args_set_all(ArgsView::empty(), self.spec_text_pairs())),
    {
        let p = self.spec_text_pairs();
        reveal_strlit("id");
        reveal_strlit("x");
        reveal_strlit("y");
        reveal_strlit("w");
        reveal_strlit("h");
        assert("h"@.len() == 1);
        assert("id"@.len() == 2);
        assert("w"@.len() == 1);
        assert("x"@.len() == 1);
        assert("y"@.len() == 1);
        assert("x"@[0] != "y"@[0]);
        assert("x"@[0] != "w"@[0]);
        assert("x"@[0] != "h"@[0]);
        assert("y"@[0] != "w"@[0]);
        assert("y"@[0] != "h"@[0]);
        assert("w"@[0] != "h"@[0]);
        lemma_set_all_keys_ok(p);
        lemma_get_all(p, 0);
        lemma_parse_hex16(self.id);
        lemma_get_all(p, 1);
        lemma_parse_i32_str(self.x);
        lemma_get_all(p, 2);
        lemma_parse_i32_str(self.y);
        lemma_get_all(p, 3);
        lemma_parse_num_dec(self.w as nat, 65535);
        lemma_get_all(p, 4);
        lemma_parse_num_dec(self.h as nat, 65535);
    }

    /// The text form holds each field under its own name (id, x, y, w, h)
    pub proof fn lemma_text_fields(&self)
        ensures
            args_get(args_set_all(ArgsView::empty(), self.spec_text_pairs()), "id"@) == hex16_str(self.id),
            args_get(args_set_all(ArgsView::empty(), self.spec_text_pairs()), "x"@) == int_str(self.x as int),
            args_get(args_set_all(ArgsView::empty(), self.spec_text_pairs()), "y"@) == int_str(self.y as int),
            args_get(args_set_all(ArgsView::empty(), self.spec_text_pairs()), "w"@) == int_str(self.w as int),
            args_get(args_set_all(ArgsView::empty(), self.spec_text_pairs()), "h"@) == int_str(self.h as int),
    {
        let p = self.spec_text_pairs();
        reveal_strlit("id");
        reveal_strlit("x");
        reveal_strlit("y");
        reveal_strlit("w");
        reveal_strlit("h");
        assert("h"@.len() == 1);
        assert("id"@.len() == 2);
        assert("w"@.len() == 1);
        assert("x"@.len() == 1);
        assert("y"@.len() == 1);
        assert("x"@[0] != "y"@[0]);
        assert("x"@[0] != "w"@[0]);
        assert("x"@[0] != "h"@[0]);
        assert("y"@[0] != "w"@[0]);
        assert("y"@[0] != "h"@[0]);
        assert("w"@[0] != "h"@[0]);
        lemma_get_all(p, 0);
        lemma_get_all(p, 1);
        lemma_get_all(p, 2);
        lemma_get_all(p, 3);
        lemma_get_all(p, 4);
    }
}

impl AnnotationEditMessage {
    /// The arguments of the text form, in the order they are written
    pub open spec fn spec_text_pairs(&self) -> ArgsView {
        seq![
            ("id"@, hex16_str(self.id)),
            ("bg"@, argb_str(self.bg)),
            ("flags"@, int_str(self.flags as int)),
            ("border"@, int_str(self.border as int)),
            ("text"@, self.text@),
        ]
    }

    /// Whether the text form reads back as this message: each flags value
    /// has only bits that have a name
    pub open spec fn spec_text_ok(&self) -> bool {
        true
    }

    /// Whether this message holds the fields read from text arguments `a`
    pub open spec fn spec_reads_text(&self, a: ArgsView) -> bool {
        &&& self.id == parse_num(args_get(a, "id"@), 65535)
        &&& self.bg == parse_argb(args_get(a, "bg"@))
        &&& self.flags == parse_num(args_get(a, "flags"@), 255)
        &&& self.border == parse_num(args_get(a, "border"@), 255)
        &&& self.text@ == args_get(a, "text"@)
    }

    fn to_text(&self, txt: TextMessage) -> (r: TextMessage)
        ensures
            r.user_id == txt.user_id,
            r.name@ == txt.name@,
            r.dabs_view() == txt.dabs_view(),
            r.args_view() == args_set_all(txt.args_view(), self.spec_text_pairs()),
    {
        let ghost a = txt.args_view();
        let r = txt.set_hex16("id", self.id).set_argb32("bg", self.bg).set_dec("flags", self.flags as i64).set_dec("border", self.border as i64).set("text", self.text.clone());
        proof {
            reveal_with_fuel(args_set_all, 6);
            let p = self.spec_text_pairs();
            assert(p.take(5).drop_last() =~= p.take(4));
            assert(p.take(4).drop_last() =~= p.take(3));
            assert(p.take(3).drop_last() =~= p.take(2));
            assert(p.take(2).drop_last() =~= p.take(1));
            assert(p.take(1).drop_last() =~= p.take(0));
            assert(p.take(5) =~= p);
        }
        r
    }

    fn from_text(tm: &TextMessage) -> (r: Self)
        ensures
            r.spec_reads_text(tm.args_view()),
    {
        let id = tm.get_u16("id");
        let bg = tm.get_argb32("bg");
        let flags = tm.get_u8("flags");
        let border = tm.get_u8("border");
        let text = tm.get_str("text");
        Self { id, bg, flags, border, text }
    }

    /// The text form reads back as this message
    pub proof fn lemma_text_roundtrip(&self)
        requires
            self.spec_text_ok(),
        ensures
            self.spec_reads_text(args_set_all(ArgsView::empty(), self.spec_text_pairs())),
            keys_ok(args_set_all(ArgsView::empty(), self.spec_text_pairs())),
    {
        let p = self.spec_text_pairs();
        reveal_strlit("id");
        reveal_strlit("bg");
        reveal_strlit("flags");
        reveal_strlit("border");
        reveal_strlit("text");
        assert("bg"@.len() == 2);
        assert("border"@.len() == 6);
        assert("flags"@.len() == 5);
        assert("id"@.len() == 2);
        assert("text"@.len() == 4);
        assert("id"@[0] != "bg"@[0]);
        lemma_set_all_keys_ok(p);
        lemma_get_all(p, 0);
        lemma_parse_hex16(self.id);
        lemma_get_all(p, 1);
        lemma_parse_argb(self.bg);
        lemma_get_all(p, 2);
        lemma_parse_num_dec(self.flags as nat, 255);
        lemma_get_all(p, 3);
        lemma_parse_num_dec(self.border as nat, 255);
        lemma_get_all(p, 4);
    }

    /// The text form holds each field under its own name (id, bg, flags, border, text)
    pub proof fn lemma_text_fields(&self)
        ensures
            args_get(args_set_all(ArgsView::empty(), self.spec_text_pairs()), "id"@) == hex16_str(self.id),
            args_get(args_set_all(ArgsView::empty(), self.spec_text_pairs()), "bg"@) == argb_str(self.bg),
            args_get(args_set_all(ArgsView::empty(), self.spec_text_pairs()), "flags"@) == int_str(self.flags as int),
            args_get(args_set_all(ArgsView::empty(), self.spec_text_pairs()), "border"@) == int_str(self.border as int),
            args_get(args_set_all(ArgsView::empty(), self.spec_text_pairs()), "text"@) == self.text@,
    {
        let p = self.spec_text_pairs();
        reveal_strlit("id");
        reveal_strlit("bg");
        reveal_strlit("flags");
        reveal_strlit("border");
        reveal_strlit("text");
        assert("bg"@.len() == 2);
        assert("border"@.len() == 6);
        assert("flags"@.len() == 5);
        assert("id"@.len() == 2);
        assert("text"@.len() == 4);
        assert("id"@[0] != "bg"@[0]);
        lemma_get_all(p, 0);
        lemma_get_all(p, 1);
        lemma_get_all(p, 2);
        lemma_get_all(p, 3);
        lemma_get_all(p, 4);
    }
}

impl MoveRegionMessage {
    /// The arguments of the text form, in the order they are written
    pub open spec fn spec_text_pairs(&self) -> ArgsView {
        seq![
            ("layer"@, hex16_str(self.layer)),
            ("bx"@, int_str(self.bx as int)),
            ("by"@, int_str(self.by as int)),
            ("bw"@, int_str(self.bw as int)),
            ("bh"@, int_str(self.bh as int)),
            ("x1"@, int_str(self.x1 as int)),
            ("y1"@, int_str(self.y1 as int)),
            ("x2"@, int_str(self.x2 as int)),
            ("y2"@, int_str(self.y2 as int)),
            ("x3"@, int_str(self.x3 as int)),
            ("y3"@, int_str(self.y3 as int)),
            ("x4"@, int_str(self.x4 as int)),
            ("y4"@, int_str(self.y4 as int)),
            ("mask"@, base64_encode(self.mask@)),
        ]
    }

    /// Whether the text form reads back as this message: each flags value
    /// has only bits that have a name
    pub open spec fn spec_text_ok(&self) -> bool {
        true
    }

    /// Whether this message holds the fields read from text arguments `a`
    pub open spec fn spec_reads_text(&self, a: ArgsView) -> bool {
        &&& self.layer == parse_num(args_get(a, "layer"@), 65535)
        &&& self.bx == parse_u32(args_get(a, "bx"@)) as i32
        &&& self.by == parse_u32(args_get(a, "by"@)) as i32
        &&& self.bw == parse_u32(args_get(a, "bw"@)) as i32
        &&& self.bh == parse_u32(args_get(a, "bh"@)) as i32
        &&& self.x1 == parse_u32(args_get(a, "x1"@)) as i32
        &&& self.y1 == parse_u32(args_get(a, "y1"@)) as i32
        &&& self.x2 == parse_u32(args_get(a, "x2"@)) as i32
        &&& self.y2 == parse_u32(args_get(a, "y2"@)) as i32
        &&& self.x3 == parse_u32(args_get(a, "x3"@)) as i32
        &&& self.y3 == parse_u32(args_get(a, "y3"@)) as i32
        &&& self.x4 == parse_u32(args_get(a, "x4"@)) as i32
        &&& self.y4 == parse_u32(args_get(a, "y4"@)) as i32
        &&& self.mask@ == parse_bytes(args_get(a, "mask"@))
    }

    fn to_text(&self, txt: TextMessage) -> (r: TextMessage)
        ensures
            r.user_id == txt.user_id,
            r.name@ == txt.name@,
            r.dabs_view() == txt.dabs_view(),
            r.args_view() == args_set_all(txt.args_view(), self.spec_text_pairs()),
    {
        let ghost a = txt.args_view();
        let r = txt.set_hex16("layer", self.layer).set_dec("bx", self.bx as i64).set_dec("by", self.by as i64).set_dec("bw", self.bw as i64).set_dec("bh", self.bh as i64).set_dec("x1", self.x1 as i64).set_dec("y1", self.y1 as i64).set_dec("x2", self.x2 as i64).set_dec("y2", self.y2 as i64).set_dec("x3", self.x3 as i64).set_dec("y3", self.y3 as i64).set_dec("x4", self.x4 as i64).set_dec("y4", self.y4 as i64).set_bytes("mask", self.mask.as_slice());
        proof {
            reveal_with_fuel(args_set_all, 15);
            let p = self.spec_text_pairs();
            assert(p.take(14).drop_last() =~= p.take(13));
            assert(p.take(13).drop_last() =~= p.take(12));
            assert(p.take(12).drop_last() =~= p.take(11));
            assert(p.take(11).drop_last() =~= p.take(10));
            assert(p.take(10).drop_last() =~= p.take(9));
            assert(p.take(9).drop_last() =~= p.take(8));
            assert(p.take(8).drop_last() =~= p.take(7));
            assert(p.take(7).drop_last() =~= p.take(6));
            assert(p.take(6).drop_last() =~= p.take(5));
            assert(p.take(5).drop_last() =~= p.take(4));
            assert(p.take(4).drop_last() =~= p.take(3));
            assert(p.take(3).drop_last() =~= p.take(2));
            assert(p.take(2).drop_last() =~= p.take(1));
            assert(p.take(1).drop_last() =~= p.take(0));
            assert(p.take(14) =~= p);
        }
        r
    }

    fn from_text(tm: &TextMessage) -> (r: Self)
        ensures
            r.spec_reads_text(tm.args_view()),
    {
        let layer = tm.get_u16("layer");
        let bx = tm.get_u32("bx") as i32;
        let by = tm.get_u32("by") as i32;
        let bw = tm.get_u32("bw") as i32;
        let bh = tm.get_u32("bh") as i32;
        let x1 = tm.get_u32("x1") as i32;
        let y1 = tm.get_u32("y1") as i32;
        let x2 = tm.get_u32("x2") as i32;
        let y2 = tm.get_u32("y2") as i32;
        let x3 = tm.get_u32("x3") as i32;
        let y3 = tm.get_u32("y3") as i32;
        let x4 = tm.get_u32("x4") as i32;
        let y4 = tm.get_u32("y4") as i32;
        let mask = tm.get_bytes("mask");
        Self { layer, bx, by, bw, bh, x1, y1, x2, y2, x3, y3, x4, y4, mask }
    }

    /// The text form reads back as this message
    #[verifier::rlimit(80)]
    pub proof fn lemma_text_roundtrip(&self)
        requires
            self.spec_text_ok(),
        ensures
            self.spec_reads_text(args_set_all(ArgsView::empty(), self.spec_text_pairs())),
            keys_ok(args_set_all(ArgsView::empty(), self.spec_text_pairs())),
    {
        let p = self.spec_text_pairs();
        reveal_strlit("layer");
        reveal_strlit("bx");
        reveal_strlit("by");
        reveal_strlit("bw");
        reveal_strlit("bh");
        reveal_strlit("x1");
        reveal_strlit("y1");
        reveal_strlit("x2");
        reveal_strlit("y2");
        reveal_strlit("x3");
        reveal_strlit("y3");
        reveal_strlit("x4");
        reveal_strlit("y4");
        reveal_strlit("mask");
        assert("bh"@.len() == 2);
        assert("bw"@.len() == 2);
        assert("bx"@.len() == 2);
        assert("by"@.len() == 2);
        assert("layer"@.len() == 5);
        assert("mask"@.len() == 4);
        assert("x1"@.len() == 2);
        assert("x2"@.len() == 2);
        assert("x3"@.len() == 2);
        assert("x4"@.len() == 2);
        assert("y1"@.len() == 2);
        assert("y2"@.len() == 2);
        assert("y3"@.len() == 2);
        assert("y4"@.len() == 2);
        assert("bx"@[1] != "by"@[1]);
        assert("bx"@[1] != "bw"@[1]);
        assert("bx"@[1] != "bh"@[1]);
        assert("bx"@[0] != "x1"@[0]);
        assert("bx"@[0] != "y1"@[0]);
        assert("bx"@[0] != "x2"@[0]);
        assert("bx"@[0] != "y2"@[0]);
        assert("bx"@[0] != "x3"@[0]);
        assert("bx"@[0] != "y3"@[0]);
        assert("bx"@[0] != "x4"@[0]);
        assert("bx"@[0] != "y4"@[0]);
        assert("by"@[1] != "bw"@[1]);
        assert("by"@[1] != "bh"@[1]);
        assert("by"@[0] != "x1"@[0]);
        assert("by"@[0] != "y1"@[0]);
        assert("by"@[0] != "x2"@[0]);
        assert("by"@[0] != "y2"@[0]);
        assert("by"@[0] != "x3"@[0]);
        assert("by"@[0] != "y3"@[0]);
        assert("by"@[0] != "x4"@[0]);
        assert("by"@[0] != "y4"@[0]);
        assert("bw"@[1] != "bh"@[1]);
        assert("bw"@[0] != "x1"@[0]);
        assert("bw"@[0] != "y1"@[0]);
        assert("bw"@[0] != "x2"@[0]);
        assert("bw"@[0] != "y2"@[0]);
        assert("bw"@[0] != "x3"@[0]);
        assert("bw"@[0] != "y3"@[0]);
        assert("bw"@[0] != "x4"@[0]);
        assert("bw"@[0] != "y4"@[0]);
        assert("bh"@[0] != "x1"@[0]);
        assert("bh"@[0] != "y1"@[0]);
        assert("bh"@[0] != "x2"@[0]);
        assert("bh"@[0] != "y2"@[0]);
        assert("bh"@[0] != "x3"@[0]);
        assert("bh"@[0] != "y3"@[0]);
        assert("bh"@[0] != "x4"@[0]);
        assert("bh"@[0] != "y4"@[0]);
        assert("x1"@[0] != "y1"@[0]);
        assert("x1"@[1] != "x2"@[1]);
        assert("x1"@[0] != "y2"@[0]);
        assert("x1"@[1] != "x3"@[1]);
        assert("x1"@[0] != "y3"@[0]);
        assert("x1"@[1] != "x4"@[1]);
        assert("x1"@[0] != "y4"@[0]);
        assert("y1"@[0] != "x2"@[0]);
        assert("y1"@[1] != "y2"@[1]);
        assert("y1"@[0] != "x3"@[0]);
        assert("y1"@[1] != "y3"@[1]);
        assert("y1"@[0] != "x4"@[0]);
        assert("y1"@[1] != "y4"@[1]);
        assert("x2"@[0] != "y2"@[0]);
        assert("x2"@[1] != "x3"@[1]);
        assert("x2"@[0] != "y3"@[0]);
        assert("x2"@[1] != "x4"@[1]);
        assert("x2"@[0] != "y4"@[0]);
        assert("y2"@[0] != "x3"@[0]);
        assert("y2"@[1] != "y3"@[1]);
        assert("y2"@[0] != "x4"@[0]);
        assert("y2"@[1] != "y4"@[1]);
        assert("x3"@[0] != "y3"@[0]);
        assert("x3"@[1] != "x4"@[1]);
        assert("x3"@[0] != "y4"@[0]);
        assert("y3"@[0] != "x4"@[0]);
        assert("y3"@[1] != "y4"@[1]);
        assert("x4"@[0] != "y4"@[0]);
        lemma_set_all_keys_ok(p);
        lemma_get_all(p, 0);
        lemma_parse_hex16(self.layer);
        lemma_get_all(p, 1);
        lemma_parse_i32_str(self.bx);
        lemma_get_all(p, 2);
        lemma_parse_i32_str(self.by);
        lemma_get_all(p, 3);
        lemma_parse_i32_str(self.bw);
        lemma_get_all(p, 4);
        lemma_parse_i32_str(self.bh);
        lemma_get_all(p, 5);
        lemma_parse_i32_str(self.x1);
        lemma_get_all(p, 6);
        lemma_parse_i32_str(self.y1);
        lemma_get_all(p, 7);
        lemma_parse_i32_str(self.x2);
        lemma_get_all(p, 8);
        lemma_parse_i32_str(self.y2);
        lemma_get_all(p, 9);
        lemma_parse_i32_str(self.x3);
        lemma_get_all(p, 10);
        lemma_parse_i32_str(self.y3);
        lemma_get_all(p, 11);
        lemma_parse_i32_str(self.x4);
        lemma_get_all(p, 12);
        lemma_parse_i32_str(self.y4);
        lemma_get_all(p, 13);
        lemma_base64_roundtrip(self.mask@);
    }

    /// The text form holds each field under its own name (layer, bx, by, bw, bh, x1, y1, x2, y2, x3, y3, x4, y4, mask)
    pub proof fn lemma_text_fields(&self)
        ensures
            args_get(args_set_all(ArgsView::empty(), self.spec_text_pairs()), "layer"@) == hex16_str(self.layer),
            args_get(args_set_all(ArgsView::empty(), self.spec_text_pairs()), "bx"@) == int_str(self.bx as int),
            args_get(args_set_all(ArgsView::empty(), self.spec_text_pairs()), "by"@) == int_str(self.by as int),
            args_get(args_set_all(ArgsView::empty(), self.spec_text_pairs()), "bw"@) == int_str(self.bw as int),
            args_get(args_set_all(ArgsView::empty(), self.spec_text_pairs()), "bh"@) == int_str(self.bh as int),
            args_get(args_set_all(ArgsView::empty(), self.spec_text_pairs()), "x1"@) == int_str(self.x1 as int),
            args_get(args_set_all(ArgsView::empty(), self.spec_text_pairs()), "y1"@) == int_str(self.y1 as int),
            args_get(args_set_all(ArgsView::empty(), self.spec_text_pairs()), "x2"@) == int_str(self.x2 as int),
            args_get(args_set_all(ArgsView::empty(), self.spec_text_pairs()), "y2"@) == int_str(self.y2 as int),
            args_get(args_set_all(ArgsView::empty(), self.spec_text_pairs()), "x3"@) == int_str(self.x3 as int),
            args_get(args_set_all(ArgsView::empty(), self.spec_text_pairs()), "y3"@) == int_str(self.y3 as int),
            args_get(args_set_all(ArgsView::empty(), self.spec_text_pairs()), "x4"@) == int_str(self.x4 as int),
            args_get(args_set_all(ArgsView::empty(), self.spec_text_pairs()), "y4"@) == int_str(self.y4 as int),
            args_get(args_set_all(ArgsView::empty(), self.spec_text_pairs()), "mask"@) == base64_encode(self.mask@),
    {
        let p = self.spec_text_pairs();
        reveal_strlit("layer");
        reveal_strlit("bx");
        reveal_strlit("by");
        reveal_strlit("bw");
        reveal_strlit("bh");
        reveal_strlit("x1");
        reveal_strlit("y1");
        reveal_strlit("x2");
        reveal_strlit("y2");
        reveal_strlit("x3");
        reveal_strlit("y3");
        reveal_strlit("x4");
        reveal_strlit("y4");
        reveal_strlit("mask");
        assert("bh"@.len() == 2);
        assert("bw"@.len() == 2);
        assert("bx"@.len() == 2);
        assert("by"@.len() == 2);
        assert("layer"@.len() == 5);
        assert("mask"@.len() == 4);
        assert("x1"@.len() == 2);
        assert("x2"@.len() == 2);
        assert("x3"@.len() == 2);
        assert("x4"@.len() == 2);
        assert("y1"@.len() == 2);
        assert("y2"@.len() == 2);
        assert("y3"@.len() == 2);
        assert("y4"@.len() == 2);
        assert("bx"@[1] != "by"@[1]);
        assert("bx"@[1] != "bw"@[1]);
        assert("bx"@[1] != "bh"@[1]);
        assert("bx"@[0] != "x1"@[0]);
        assert("bx"@[0] != "y1"@[0]);
        assert("bx"@[0] != "x2"@[0]);
        assert("bx"@[0] != "y2"@[0]);
        assert("bx"@[0] != "x3"@[0]);
        assert("bx"@[0] != "y3"@[0]);
        assert("bx"@[0] != "x4"@[0]);
        assert("bx"@[0] != "y4"@[0]);
        assert("by"@[1] != "bw"@[1]);
        assert("by"@[1] != "bh"@[1]);
        assert("by"@[0] != "x1"@[0]);
        assert("by"@[0] != "y1"@[0]);
        assert("by"@[0] != "x2"@[0]);
        assert("by"@[0] != "y2"@[0]);
        assert("by"@[0] != "x3"@[0]);
        assert("by"@[0] != "y3"@[0]);
        assert("by"@[0] != "x4"@[0]);
        assert("by"@[0] != "y4"@[0]);
        assert("bw"@[1] != "bh"@[1]);
        assert("bw"@[0] != "x1"@[0]);
        assert("bw"@[0] != "y1"@[0]);
        assert("bw"@[0] != "x2"@[0]);
        assert("bw"@[0] != "y2"@[0]);
        assert("bw"@[0] != "x3"@[0]);
        assert("bw"@[0] != "y3"@[0]);
        assert("bw"@[0] != "x4"@[0]);
        assert("bw"@[0] != "y4"@[0]);
        assert("bh"@[0] != "x1"@[0]);
        assert("bh"@[0] != "y1"@[0]);
        assert("bh"@[0] != "x2"@[0]);
        assert("bh"@[0] != "y2"@[0]);
        assert("bh"@[0] != "x3"@[0]);
        assert("bh"@[0] != "y3"@[0]);
        assert("bh"@[0] != "x4"@[0]);
        assert("bh"@[0] != "y4"@[0]);
        assert("x1"@[0] != "y1"@[0]);
        assert("x1"@[1] != "x2"@[1]);
        assert("x1"@[0] != "y2"@[0]);
        assert("x1"@[1] != "x3"@[1]);
        assert("x1"@[0] != "y3"@[0]);
        assert("x1"@[1] != "x4"@[1]);
        assert("x1"@[0] != "y4"@[0]);
        assert("y1"@[0] != "x2"@[0]);
        assert("y1"@[1] != "y2"@[1]);
        assert("y1"@[0] != "x3"@[0]);
        assert("y1"@[1] != "y3"@[1]);
        assert("y1"@[0] != "x4"@[0]);
        assert("y1"@[1] != "y4"@[1]);
        assert("x2"@[0] != "y2"@[0]);
        assert("x2"@[1] != "x3"@[1]);
        assert("x2"@[0] != "y3"@[0]);
        assert("x2"@[1] != "x4"@[1]);
        assert("x2"@[0] != "y4"@[0]);
        assert("y2"@[0] != "x3"@[0]);
        assert("y2"@[1] != "y3"@[1]);
        assert("y2"@[0] != "x4"@[0]);
        assert("y2"@[1] != "y4"@[1]);
        assert("x3"@[0] != "y3"@[0]);
        assert("x3"@[1] != "x4"@[1]);
        assert("x3"@[0] != "y4"@[0]);
        assert("y3"@[0] != "x4"@[0]);
        assert("y3"@[1] != "y4"@[1]);
        assert("x4"@[0] != "y4"@[0]);
        lemma_get_all(p, 0);
        lemma_get_all(p, 1);
        lemma_get_all(p, 2);
        lemma_get_all(p, 3);
        lemma_get_all(p, 4);
        lemma_get_all(p, 5);
        lemma_get_all(p, 6);
        lemma_get_all(p, 7);
        lemma_get_all(p, 8);
        lemma_get_all(p, 9);
        lemma_get_all(p, 10);
        lemma_get_all(p, 11);
        lemma_get_all(p, 12);
        lemma_get_all(p, 13);
    }
}

impl PutTileMessage {
    /// The arguments of the text form, in the order they are written
    pub open spec fn spec_text_pairs(&self) -> ArgsView {
        seq![
            ("layer"@, hex16_str(self.layer)),
            ("col"@, int_str(self.col as int)),
            ("row"@, int_str(self.row as int)),
            ("repeat"@, int_str(self.repeat as int)),
            ("sublayer"@, int_str(self.sublayer as int)),
            ("image"@, base64_encode(self.image@)),
        ]
    }

    /// Whether the text form reads back as this message: each flags value
    /// has only bits that have a name
    pub open spec fn spec_text_ok(&self) -> bool {
        true
    }

    /// Whether this message holds the fields read from text arguments `a`
    pub open spec fn spec_reads_text(&self, a: ArgsView) -> bool {
        &&& self.layer == parse_num(args_get(a, "layer"@), 65535)
        &&& self.col == parse_num(args_get(a, "col"@), 65535)
        &&& self.row == parse_num(args_get(a, "row"@), 65535)
        &&& self.repeat == parse_num(args_get(a, "repeat"@), 65535)
        &&& self.sublayer == parse_num(args_get(a, "sublayer"@), 255)
        &&& self.image@ == parse_bytes(args_get(a, "image"@))
    }

    fn to_text(&self, txt: TextMessage) -> (r: TextMessage)
        ensures
            r.user_id == txt.user_id,
            r.name@ == txt.name@,
            r.dabs_view() == txt.dabs_view(),
            r.args_view() == args_set_all(txt.args_view(), self.spec_text_pairs()),
    {
        let ghost a = txt.args_view();
        let r = txt.set_hex16("layer", self.layer).set_dec("col", self.col as i64).set_dec("row", self.row as i64).set_dec("repeat", self.repeat as i64).set_dec("sublayer", self.sublayer as i64).set_bytes("image", self.image.as_slice());
        proof {
            reveal_with_fuel(args_set_all, 7);
            let p = self.spec_text_pairs();
            assert(p.take(6).drop_last() =~= p.take(5));
            assert(p.take(5).drop_last() =~= p.take(4));
            assert(p.take(4).drop_last() =~= p.take(3));
            assert(p.take(3).drop_last() =~= p.take(2));
            assert(p.take(2).drop_last() =~= p.take(1));
            assert(p.take(1).drop_last() =~= p.take(0));
            assert(p.take(6) =~= p);
        }
        r
    }

    fn from_text(tm: &TextMessage) -> (r: Self)
        ensures
            r.spec_reads_text(tm.args_view()),
    {
        let layer = tm.get_u16("layer");
        let col = tm.get_u16("col");
        let row = tm.get_u16("row");
        let repeat = tm.get_u16("repeat");
        let sublayer = tm.get_u8("sublayer");
        let image = tm.get_bytes("image");
        Self { layer, col, row, repeat, sublayer, image }
    }

    /// The text form reads back as this message
    pub proof fn lemma_text_roundtrip(&self)
        requires
            self.spec_text_ok(),
        ensures
            self.spec_reads_text(args_set_all(ArgsView::empty(), self.spec_text_pairs())),
            keys_ok(args_set_all(ArgsView::empty(), self.spec_text_pairs())),
    {
        let p = self.spec_text_pairs();
        reveal_strlit("layer");
        reveal_strlit("col");
        reveal_strlit("row");
        reveal_strlit("repeat");
        reveal_strlit("sublayer");
        reveal_strlit("image");
        assert("col"@.len() == 3);
        assert("image"@.len() == 5);
        assert("layer"@.len() == 5);
        assert("repeat"@.len() == 6);
        assert("row"@.len() == 3);
        assert("sublayer"@.len() == 8);
        assert("layer"@[0] != "image"@[0]);
        assert("col"@[0] != "row"@[0]);
        lemma_set_all_keys_ok(p);
        lemma_get_all(p, 0);
        lemma_parse_hex16(self.layer);
        lemma_get_all(p, 1);
        lemma_parse_num_dec(self.col as nat, 65535);
        lemma_get_all(p, 2);
        lemma_parse_num_dec(self.row as nat, 65535);
        lemma_get_all(p, 3);
        lemma_parse_num_dec(self.repeat as nat, 65535);
        lemma_get_all(p, 4);
        lemma_parse_num_dec(self.sublayer as nat, 255);
        lemma_get_all(p, 5);
        lemma_base64_roundtrip(self.image@);
    }

    /// The text form holds each field under its own name (layer, col, row, repeat, sublayer, image)
    pub proof fn lemma_text_fields(&self)
        ensures
            args_get(args_set_all(ArgsView::empty(), self.spec_text_pairs()), "layer"@) == hex16_str(self.layer),
            args_get(args_set_all(ArgsView::empty(), self.spec_text_pairs()), "col"@) == int_str(self.col as int),
            args_get(args_set_all(ArgsView::empty(), self.spec_text_pairs()), "row"@) == int_str(self.row as int),
            args_get(args_set_all(ArgsView::empty(), self.spec_text_pairs()), "repeat"@) == int_str(self.repeat as int),
            args_get(args_set_all(ArgsView::empty(), self.spec_text_pairs()), "sublayer"@) == int_str(self.sublayer as int),
            args_get(args_set_all(ArgsView::empty(), self.spec_text_pairs()), "image"@) == base64_encode(self.image@),
    {
        let p = self.spec_text_pairs();
        reveal_strlit("layer");
        reveal_strlit("col");
        reveal_strlit("row");
        reveal_strlit("repeat");
        reveal_strlit("sublayer");
        reveal_strlit("image");
        assert("col"@.len() == 3);
        assert("image"@.len() == 5);
        assert("layer"@.len() == 5);
        assert("repeat"@.len() == 6);
        assert("row"@.len() == 3);
        assert("sublayer"@.len() == 8);
        assert("layer"@[0] != "image"@[0]);
        assert("col"@[0] != "row"@[0]);
        lemma_get_all(p, 0);
        lemma_get_all(p, 1);
        lemma_get_all(p, 2);
        lemma_get_all(p, 3);
        lemma_get_all(p, 4);
        lemma_get_all(p, 5);
    }
}

impl DrawDabsClassicMessage {
    /// The arguments of the text form, in the order they are written
    pub open spec fn spec_text_pairs(&self) -> ArgsView {
        seq![
            ("layer"@, hex16_str(self.layer)),
            ("x"@, fixed_str(self.x as int, 2)),
            ("y"@, fixed_str(self.y as int, 2)),
            ("color"@, argb_str(self.color)),
            ("mode"@, int_str(self.mode as int)),
        ]
    }

    /// The dabs of the text form
    pub open spec fn spec_text_dabs(&self) -> DabsView {
        Seq::new(self.dabs@.len(), |i: int| classicdab_tokens(self.dabs@[i]))
    }

    /// Whether the text form reads back as this message: each flags value
    /// has only bits that have a name
    pub open spec fn spec_text_ok(&self) -> bool {
        true
    }

    /// Whether this message holds the fields read from text arguments `a` and dabs `d`
    pub open spec fn spec_reads_text(&self, a: ArgsView, d: DabsView) -> bool {
        &&& self.layer == parse_num(args_get(a, "layer"@), 65535)
        &&& self.x == fixed_value(args_get(a, "x"@), 2, i32::MIN as int, i32::MAX as int)
        &&& self.y == fixed_value(args_get(a, "y"@), 2, i32::MIN as int, i32::MAX as int)
        &&& self.color == parse_argb(args_get(a, "color"@))
        &&& self.mode == parse_num(args_get(a, "mode"@), 255)
        &&& self.dabs@ == classicdabs_read(d)
    }

    fn to_text(&self, txt: TextMessage) -> (r: TextMessage)
        ensures
            r.user_id == txt.user_id,
            r.name@ == txt.name@,
            r.dabs_view() == self.spec_text_dabs(),
            r.args_view() == args_set_all(txt.args_view(), self.spec_text_pairs()),
    {
        let ghost a = txt.args_view();
        let r = txt.set_hex16("layer", self.layer).set_fixed("x", self.x as i64, 2).set_fixed("y", self.y as i64, 2).set_argb32("color", self.color).set_dec("mode", self.mode as i64);
        proof {
            reveal_with_fuel(args_set_all, 6);
            let p = self.spec_text_pairs();
            assert(p.take(5).drop_last() =~= p.take(4));
            assert(p.take(4).drop_last() =~= p.take(3));
            assert(p.take(3).drop_last() =~= p.take(2));
            assert(p.take(2).drop_last() =~= p.take(1));
            assert(p.take(1).drop_last() =~= p.take(0));
            assert(p.take(5) =~= p);
        }
        let dabs = classicdab_dabs_text(&self.dabs);
        r.set_dabs(dabs)
    }

    fn from_text(tm: &TextMessage) -> (r: Self)
        ensures
            r.spec_reads_text(tm.args_view(), tm.dabs_view()),
    {
        let layer = tm.get_u16("layer");
        let x = tm.get_fixed("x", 2, i32::MIN as i64, i32::MAX as i64) as i32;
        let y = tm.get_fixed("y", 2, i32::MIN as i64, i32::MAX as i64) as i32;
        let color = tm.get_argb32("color");
        let mode = tm.get_u8("mode");
        let dabs = classicdabs_from_text(&tm.dabs);
        Self { layer, x, y, color, mode, dabs }
    }

    /// The text form reads back as this message
    pub proof fn lemma_text_roundtrip(&self)
        requires
            self.spec_text_ok(),
        ensures
            self.spec_reads_text(
                args_set_all(ArgsView::empty(), self.spec_text_pairs()),
                self.spec_text_dabs(),
            ),
            keys_ok(args_set_all(ArgsView::empty(), self.spec_text_pairs())),
            dabs_ok(self.spec_text_dabs()),
    {
        let p = self.spec_text_pairs();
        reveal_strlit("layer");
        reveal_strlit("x");
        reveal_strlit("y");
        reveal_strlit("color");
        reveal_strlit("mode");
        assert("color"@.len() == 5);
        assert("layer"@.len() == 5);
        assert("mode"@.len() == 4);
        assert("x"@.len() == 1);
        assert("y"@.len() == 1);
        assert("layer"@[0] != "color"@[0]);
        assert("x"@[0] != "y"@[0]);
        lemma_set_all_keys_ok(p);
        lemma_get_all(p, 0);
        lemma_parse_hex16(self.layer);
        lemma_get_all(p, 1);
        lemma_fixed_roundtrip(self.x as int, 2, i32::MIN as int, i32::MAX as int);
        lemma_get_all(p, 2);
        lemma_fixed_roundtrip(self.y as int, 2, i32::MIN as int, i32::MAX as int);
        lemma_get_all(p, 3);
        lemma_parse_argb(self.color);
        lemma_get_all(p, 4);
        lemma_parse_num_dec(self.mode as nat, 255);
        lemma_classicdabs_roundtrip(self.dabs@);
    }

    /// The text form holds each field under its own name (layer, x, y, color, mode)
    pub proof fn lemma_text_fields(&self)
        ensures
            args_get(args_set_all(ArgsView::empty(), self.spec_text_pairs()), "layer"@) == hex16_str(self.layer),
            args_get(args_set_all(ArgsView::empty(), self.spec_text_pairs()), "x"@) == fixed_str(self.x as int, 2),
            args_get(args_set_all(ArgsView::empty(), self.spec_text_pairs()), "y"@) == fixed_str(self.y as int, 2),
            args_get(args_set_all(ArgsView::empty(), self.spec_text_pairs()), "color"@) == argb_str(self.color),
            args_get(args_set_all(ArgsView::empty(), self.spec_text_pairs()), "mode"@) == int_str(self.mode as int),
    {
        let p = self.spec_text_pairs();
        reveal_strlit("layer");
        reveal_strlit("x");
        reveal_strlit("y");
        reveal_strlit("color");
        reveal_strlit("mode");
        assert("color"@.len() == 5);
        assert("layer"@.len() == 5);
        assert("mode"@.len() == 4);
        assert("x"@.len() == 1);
        assert("y"@.len() == 1);
        assert("layer"@[0] != "color"@[0]);
        assert("x"@[0] != "y"@[0]);
        lemma_get_all(p, 0);
        lemma_get_all(p, 1);
        lemma_get_all(p, 2);
        lemma_get_all(p, 3);
        lemma_get_all(p, 4);
    }
}

impl DrawDabsPixelMessage {
    /// The arguments of the text form, in the order they are written
    pub open spec fn spec_text_pairs(&self) -> ArgsView {
        seq![
            ("layer"@, hex16_str(self.layer)),
            ("x"@, int_str(self.x as int)),
            ("y"@, int_str(self.y as int)),
            ("color"@, argb_str(self.color)),
            ("mode"@, int_str(self.mode as int)),
        ]
    }

    /// The dabs of the text form
    pub open spec fn spec_text_dabs(&self) -> DabsView {
        Seq::new(self.dabs@.len(), |i: int| pixeldab_tokens(self.dabs@[i]))
    }

    /// Whether the text form reads back as this message: each flags value
    /// has only bits that have a name
    pub open spec fn spec_text_ok(&self) -> bool {
        true
    }

    /// Whether this message holds the fields read from text arguments `a` and dabs `d`
    pub open spec fn spec_reads_text(&self, a: ArgsView, d: DabsView) -> bool {
        &&& self.layer == parse_num(args_get(a, "layer"@), 65535)
        &&& self.x == parse_u32(args_get(a, "x"@)) as i32
        &&& self.y == parse_u32(args_get(a, "y"@)) as i32
        &&& self.color == parse_argb(args_get(a, "color"@))
        &&& self.mode == parse_num(args_get(a, "mode"@), 255)
        &&& self.dabs@ == pixeldabs_read(d)
    }

    fn to_text(&self, txt: TextMessage) -> (r: TextMessage)
        ensures
            r.user_id == txt.user_id,
            r.name@ == txt.name@,
            r.dabs_view() == self.spec_text_dabs(),
            r.args_view() == args_set_all(txt.args_view(), self.spec_text_pairs()),
    {
        let ghost a = txt.args_view();
        let r = txt.set_hex16("layer", self.layer).set_dec("x", self.x as i64).set_dec("y", self.y as i64).set_argb32("color", self.color).set_dec("mode", self.mode as i64);
        proof {
            reveal_with_fuel(args_set_all, 6);
            let p = self.spec_text_pairs();
            assert(p.take(5).drop_last() =~= p.take(4));
            assert(p.take(4).drop_last() =~= p.take(3));
            assert(p.take(3).drop_last() =~= p.take(2));
            assert(p.take(2).drop_last() =~= p.take(1));
            assert(p.take(1).drop_last() =~= p.take(0));
            assert(p.take(5) =~= p);
        }
        let dabs = pixeldab_dabs_text(&self.dabs);
        r.set_dabs(dabs)
    }

    fn from_text(tm: &TextMessage) -> (r: Self)
        ensures
            r.spec_reads_text(tm.args_view(), tm.dabs_view()),
    {
        let layer = tm.get_u16("layer");
        let x = tm.get_u32("x") as i32;
        let y = tm.get_u32("y") as i32;
        let color = tm.get_argb32("color");
        let mode = tm.get_u8("mode");
        let dabs = pixeldabs_from_text(&tm.dabs);
        Self { layer, x, y, color, mode, dabs }
    }

    /// The text form reads back as this message
    pub proof fn lemma_text_roundtrip(&self)
        requires
            self.spec_text_ok(),
        ensures
            self.spec_reads_text(
                args_set_all(ArgsView::empty(), self.spec_text_pairs()),
                self.spec_text_dabs(),
            ),
            keys_ok(args_set_all(ArgsView::empty(), self.spec_text_pairs())),
            dabs_ok(self.spec_text_dabs()),
    {
        let p = self.spec_text_pairs();
        reveal_strlit("layer");
        reveal_strlit("x");
        reveal_strlit("y");
        reveal_strlit("color");
        reveal_strlit("mode");
        assert("color"@.len() == 5);
        assert("layer"@.len() == 5);
        assert("mode"@.len() == 4);
        assert("x"@.len() == 1);
        assert("y"@.len() == 1);
        assert("layer"@[0] != "color"@[0]);
        assert("x"@[0] != "y"@[0]);
        lemma_set_all_keys_ok(p);
        lemma_get_all(p, 0);
        lemma_parse_hex16(self.layer);
        lemma_get_all(p, 1);
        lemma_parse_i32_str(self.x);
        lemma_get_all(p, 2);
        lemma_parse_i32_str(self.y);
        lemma_get_all(p, 3);
        lemma_parse_argb(self.color);
        lemma_get_all(p, 4);
        lemma_parse_num_dec(self.mode as nat, 255);
        lemma_pixeldabs_roundtrip(self.dabs@);
    }

    /// The text form holds each field under its own name (layer, x, y, color, mode)
    pub proof fn lemma_text_fields(&self)
        ensures
            args_get(args_set_all(ArgsView::empty(), self.spec_text_pairs()), "layer"@) == hex16_str(self.layer),
            args_get(args_set_all(ArgsView::empty(), self.spec_text_pairs()), "x"@) == int_str(self.x as int),
            args_get(args_set_all(ArgsView::empty(), self.spec_text_pairs()), "y"@) == int_str(self.y as int),
            args_get(args_set_all(ArgsView::empty(), self.spec_text_pairs()), "color"@) == argb_str(self.color),
            args_get(args_set_all(ArgsView::empty(), self.spec_text_pairs()), "mode"@) == int_str(self.mode as int),
    {
        let p = self.spec_text_pairs();
        reveal_strlit("layer");
        reveal_strlit("x");
        reveal_strlit("y");
        reveal_strlit("color");
        reveal_strlit("mode");
        assert("color"@.len() == 5);
        assert("layer"@.len() == 5);
        assert("mode"@.len() == 4);
        assert("x"@.len() == 1);
        assert("y"@.len() == 1);
        assert("layer"@[0] != "color"@[0]);
        assert("x"@[0] != "y"@[0]);
        lemma_get_all(p, 0);
        lemma_get_all(p, 1);
        lemma_get_all(p, 2);
        lemma_get_all(p, 3);
        lemma_get_all(p, 4);
    }
}

impl UndoMessage {
    /// The arguments of the text form, in the order they are written
    pub open spec fn spec_text_pairs(&self) -> ArgsView {
        seq![
            ("override_user"@, int_str(self.override_user as int)),
            ("redo"@, bool_str(self.redo)),
        ]
    }

    /// Whether the text form reads back as this message: each flags value
    /// has only bits that have a name
    pub open spec fn spec_text_ok(&self) -> bool {
        true
    }

    /// Whether this message holds the fields read from text arguments `a`
    pub open spec fn spec_reads_text(&self, a: ArgsView) -> bool {
        &&& self.override_user == parse_num(args_get(a, "override_user"@), 255)
        &&& self.redo == (args_get(a, "redo"@) == "true"@)
    }

    fn to_text(&self, txt: TextMessage) -> (r: TextMessage)
        ensures
            r.user_id == txt.user_id,
            r.name@ == txt.name@,
            r.dabs_view() == txt.dabs_view(),
            r.args_view() == args_set_all(txt.args_view(), self.spec_text_pairs()),
    {
        let ghost a = txt.args_view();
        let r = txt.set_dec("override_user", self.override_user as i64).set_bool("redo", self.redo);
        proof {
            reveal_with_fuel(args_set_all, 3);
            let p = self.spec_text_pairs();
            assert(p.take(2).drop_last() =~= p.take(1));
            assert(p.take(1).drop_last() =~= p.take(0));
            assert(p.take(2) =~= p);
        }
        r
    }

    fn from_text(tm: &TextMessage) -> (r: Self)
        ensures
            r.spec_reads_text(tm.args_view()),
    {
        let override_user = tm.get_u8("override_user");
        let redo = tm.get_bool("redo");
        Self { override_user, redo }
    }

    /// The text form reads back as this message
    pub proof fn lemma_text_roundtrip(&self)
        requires
            self.spec_text_ok(),
        ensures
            self.spec_reads_text(args_set_all(ArgsView::empty(), self.spec_text_pairs())),
            keys_ok(args_set_all(ArgsView::empty(), self.spec_text_pairs())),
    {
        let p = self.spec_text_pairs();
        reveal_strlit("override_user");
        reveal_strlit("redo");
        assert("override_user"@.len() == 13);
        assert("redo"@.len() == 4);
        lemma_set_all_keys_ok(p);
        lemma_get_all(p, 0);
        lemma_parse_num_dec(self.override_user as nat, 255);
        lemma_get_all(p, 1);
        lemma_bool_str(self.redo);
    }

    /// The text form holds each field under its own name (override_user, redo)
    pub proof fn lemma_text_fields(&self)
        ensures
            args_get(args_set_all(ArgsView::empty(), self.spec_text_pairs()), "override_user"@) == int_str(self.override_user as int),
            args_get(args_set_all(ArgsView::empty(), self.spec_text_pairs()), "redo"@) == bool_str(self.redo),
    {
        let p = self.spec_text_pairs();
        reveal_strlit("override_user");
        reveal_strlit("redo");
        assert("override_user"@.len() == 13);
        assert("redo"@.len() == 4);
        lemma_get_all(p, 0);
        lemma_get_all(p, 1);
    }
}


impl Body {
    /// The name of the text form
    pub open spec fn spec_text_name(&self) -> Seq<char> {
        match self {
            Body::Command(_) => "command"@,
            Body::Disconnect(_) => "disconnect"@,
            Body::Ping(_) => "ping"@,
            Body::Join(_) => "join"@,
            Body::Leave => "leave"@,
            Body::SessionOwner(_) => "sessionowner"@,
            Body::Chat(_) => "chat"@,
            Body::TrustedUsers(_) => "trusted"@,
            Body::SoftReset => "softreset"@,
            Body::PrivateChat(_) => "privatechat"@,
            Body::Interval(_) => "interval"@,
            Body::LaserTrail(_) => "lasertrail"@,
            Body::MovePointer(_) => "movepointer"@,
            Body::Marker(_) => "marker"@,
            Body::UserACL(_) => "useracl"@,
            Body::LayerACL(_) => "layeracl"@,
            Body::FeatureAccessLevels(_) => "featureaccess"@,
            Body::DefaultLayer(_) => "defaultlayer"@,
            Body::Filtered(_) => "filtered"@,
            Body::UndoPoint => "undopoint"@,
            Body::CanvasResize(_) => "resize"@,
            Body::LayerCreate(_) => "newlayer"@,
            Body::LayerAttributes(_) => "layerattr"@,
            Body::LayerRetitle(_) => "retitlelayer"@,
            Body::LayerOrder(_) => "layerorder"@,
            Body::LayerDelete(_) => "deletelayer"@,
            Body::LayerVisibility(_) => "layervisibility"@,
            Body::PutImage(_) => "putimage"@,
            Body::FillRect(_) => "fillrect"@,
            Body::PenUp => "penup"@,
            Body::AnnotationCreate(_) => "newannotation"@,
            Body::AnnotationReshape(_) => "reshapeannotation"@,
            Body::AnnotationEdit(_) => "editannotation"@,
            Body::AnnotationDelete(_) => "deleteannotation"@,
            Body::MoveRegion(_) => "moveregion"@,
            Body::PutTile(_) => "puttile"@,
            Body::CanvasBackground(_) => "background"@,
            Body::DrawDabsClassic(_) => "classicdabs"@,
            Body::DrawDabsPixel(_) => "pixeldabs"@,
            Body::DrawDabsPixelSquare(_) => "squarepixeldabs"@,
            Body::Undo(_) => "undo"@,
        }
    }

    /// The arguments of the text form, in the order they are written
    pub open spec fn spec_text_pairs(&self) -> ArgsView {
        match self {
            Body::Command(b) => seq![("msg"@, b@)],
            Body::Disconnect(b) => b.spec_text_pairs(),
            Body::Ping(b) => seq![("is_pong"@, bool_str(*b))],
            Body::Join(b) => b.spec_text_pairs(),
            Body::Leave => ArgsView::empty(),
            Body::SessionOwner(b) => seq![("users"@, u8_list_str(b@))],
            Body::Chat(b) => b.spec_text_pairs(),
            Body::TrustedUsers(b) => seq![("users"@, u8_list_str(b@))],
            Body::SoftReset => ArgsView::empty(),
            Body::PrivateChat(b) => b.spec_text_pairs(),
            Body::Interval(b) => seq![("msecs"@, int_str(*b as int))],
            Body::LaserTrail(b) => b.spec_text_pairs(),
            Body::MovePointer(b) => b.spec_text_pairs(),
            Body::Marker(b) => seq![("text"@, b@)],
            Body::UserACL(b) => seq![("users"@, u8_list_str(b@))],
            Body::LayerACL(b) => b.spec_text_pairs(),
            Body::FeatureAccessLevels(b) => seq![("feature_tiers"@, u8_list_str(b@))],
            Body::DefaultLayer(b) => seq![("id"@, hex16_str(*b))],
            Body::Filtered(b) => seq![("message"@, base64_encode(b@))],
            Body::UndoPoint => ArgsView::empty(),
            Body::CanvasResize(b) => b.spec_text_pairs(),
            Body::LayerCreate(b) => b.spec_text_pairs(),
            Body::LayerAttributes(b) => b.spec_text_pairs(),
            Body::LayerRetitle(b) => b.spec_text_pairs(),
            Body::LayerOrder(b) => seq![("layers"@, u16_list_str(b@, true))],
            Body::LayerDelete(b) => b.spec_text_pairs(),
            Body::LayerVisibility(b) => b.spec_text_pairs(),
            Body::PutImage(b) => b.spec_text_pairs(),
            Body::FillRect(b) => b.spec_text_pairs(),
            Body::PenUp => ArgsView::empty(),
            Body::AnnotationCreate(b) => b.spec_text_pairs(),
            Body::AnnotationReshape(b) => b.spec_text_pairs(),
            Body::AnnotationEdit(b) => b.spec_text_pairs(),
            Body::AnnotationDelete(b) => seq![("id"@, hex16_str(*b))],
            Body::MoveRegion(b) => b.spec_text_pairs(),
            Body::PutTile(b) => b.spec_text_pairs(),
            Body::CanvasBackground(b) => seq![("image"@, base64_encode(b@))],
            Body::DrawDabsClassic(b) => b.spec_text_pairs(),
            Body::DrawDabsPixel(b) => b.spec_text_pairs(),
            Body::DrawDabsPixelSquare(b) => b.spec_text_pairs(),
            Body::Undo(b) => b.spec_text_pairs(),
        }
    }

    /// The dabs of the text form
    pub open spec fn spec_text_dabs(&self) -> DabsView {
        match self {
            Body::DrawDabsClassic(b) => b.spec_text_dabs(),
            Body::DrawDabsPixel(b) => b.spec_text_dabs(),
            Body::DrawDabsPixelSquare(b) => b.spec_text_dabs(),
            _ => DabsView::empty(),
        }
    }

    /// Whether the text form reads back as this body
    pub open spec fn spec_text_ok(&self) -> bool {
        match self {
            Body::Disconnect(b) => b.spec_text_ok(),
            Body::Join(b) => b.spec_text_ok(),
            Body::Chat(b) => b.spec_text_ok(),
            Body::PrivateChat(b) => b.spec_text_ok(),
            Body::LaserTrail(b) => b.spec_text_ok(),
            Body::MovePointer(b) => b.spec_text_ok(),
            Body::LayerACL(b) => b.spec_text_ok(),
            Body::CanvasResize(b) => b.spec_text_ok(),
            Body::LayerCreate(b) => b.spec_text_ok(),
            Body::LayerAttributes(b) => b.spec_text_ok(),
            Body::LayerRetitle(b) => b.spec_text_ok(),
            Body::LayerDelete(b) => b.spec_text_ok(),
            Body::LayerVisibility(b) => b.spec_text_ok(),
            Body::PutImage(b) => b.spec_text_ok(),
            Body::FillRect(b) => b.spec_text_ok(),
            Body::AnnotationCreate(b) => b.spec_text_ok(),
            Body::AnnotationReshape(b) => b.spec_text_ok(),
            Body::AnnotationEdit(b) => b.spec_text_ok(),
            Body::MoveRegion(b) => b.spec_text_ok(),
            Body::PutTile(b) => b.spec_text_ok(),
            Body::DrawDabsClassic(b) => b.spec_text_ok(),
            Body::DrawDabsPixel(b) => b.spec_text_ok(),
            Body::DrawDabsPixelSquare(b) => b.spec_text_ok(),
            Body::Undo(b) => b.spec_text_ok(),
            _ => true,
        }
    }

    /// Whether a name is the text form name of a message
    pub open spec fn spec_text_known(name: Seq<char>) -> bool {
        name == "command"@
            || name == "disconnect"@
            || name == "ping"@
            || name == "join"@
            || name == "leave"@
            || name == "sessionowner"@
            || name == "chat"@
            || name == "trusted"@
            || name == "softreset"@
            || name == "privatechat"@
            || name == "interval"@
            || name == "lasertrail"@
            || name == "movepointer"@
            || name == "marker"@
            || name == "useracl"@
            || name == "layeracl"@
            || name == "featureaccess"@
            || name == "defaultlayer"@
            || name == "filtered"@
            || name == "undopoint"@
            || name == "resize"@
            || name == "newlayer"@
            || name == "layerattr"@
            || name == "retitlelayer"@
            || name == "layerorder"@
            || name == "deletelayer"@
            || name == "layervisibility"@
            || name == "putimage"@
            || name == "fillrect"@
            || name == "penup"@
            || name == "newannotation"@
            || name == "reshapeannotation"@
            || name == "editannotation"@
            || name == "deleteannotation"@
            || name == "moveregion"@
            || name == "puttile"@
            || name == "background"@
            || name == "classicdabs"@
            || name == "pixeldabs"@
            || name == "squarepixeldabs"@
            || name == "undo"@
    }

    /// Whether this body holds what is read from a text form with this name,
    /// arguments and dabs
    pub open spec fn spec_reads_text(&self, name: Seq<char>, a: ArgsView, d: DabsView) -> bool {
        match self {
            Body::Command(b) => name == "command"@ && b@ == args_get(a, "msg"@),
            Body::Disconnect(b) => name == "disconnect"@ && b.spec_reads_text(a),
            Body::Ping(b) => name == "ping"@ && *b == (args_get(a, "is_pong"@) == "true"@),
            Body::Join(b) => name == "join"@ && b.spec_reads_text(a),
            Body::Leave => name == "leave"@,
            Body::SessionOwner(b) => name == "sessionowner"@ && list_reads_u8(b@, parse_num_list(args_get(a, "users"@), 255)),
            Body::Chat(b) => name == "chat"@ && b.spec_reads_text(a),
            Body::TrustedUsers(b) => name == "trusted"@ && list_reads_u8(b@, parse_num_list(args_get(a, "users"@), 255)),
            Body::SoftReset => name == "softreset"@,
            Body::PrivateChat(b) => name == "privatechat"@ && b.spec_reads_text(a),
            Body::Interval(b) => name == "interval"@ && *b == parse_num(args_get(a, "msecs"@), 65535),
            Body::LaserTrail(b) => name == "lasertrail"@ && b.spec_reads_text(a),
            Body::MovePointer(b) => name == "movepointer"@ && b.spec_reads_text(a),
            Body::Marker(b) => name == "marker"@ && b@ == args_get(a, "text"@),
            Body::UserACL(b) => name == "useracl"@ && list_reads_u8(b@, parse_num_list(args_get(a, "users"@), 255)),
            Body::LayerACL(b) => name == "layeracl"@ && b.spec_reads_text(a),
            Body::FeatureAccessLevels(b) => name == "featureaccess"@ && list_reads_u8(b@, parse_num_list(args_get(a, "feature_tiers"@), 255)),
            Body::DefaultLayer(b) => name == "defaultlayer"@ && *b == parse_num(args_get(a, "id"@), 65535),
            Body::Filtered(b) => name == "filtered"@ && b@ == parse_bytes(args_get(a, "message"@)),
            Body::UndoPoint => name == "undopoint"@,
            Body::CanvasResize(b) => name == "resize"@ && b.spec_reads_text(a),
            Body::LayerCreate(b) => name == "newlayer"@ && b.spec_reads_text(a),
            Body::LayerAttributes(b) => name == "layerattr"@ && b.spec_reads_text(a),
            Body::LayerRetitle(b) => name == "retitlelayer"@ && b.spec_reads_text(a),
            Body::LayerOrder(b) => name == "layerorder"@ && list_reads_u16(b@, parse_num_list(args_get(a, "layers"@), 65535)),
            Body::LayerDelete(b) => name == "deletelayer"@ && b.spec_reads_text(a),
            Body::LayerVisibility(b) => name == "layervisibility"@ && b.spec_reads_text(a),
            Body::PutImage(b) => name == "putimage"@ && b.spec_reads_text(a),
            Body::FillRect(b) => name == "fillrect"@ && b.spec_reads_text(a),
            Body::PenUp => name == "penup"@,
            Body::AnnotationCreate(b) => name == "newannotation"@ && b.spec_reads_text(a),
            Body::AnnotationReshape(b) => name == "reshapeannotation"@ && b.spec_reads_text(a),
            Body::AnnotationEdit(b) => name == "editannotation"@ && b.spec_reads_text(a),
            Body::AnnotationDelete(b) => name == "deleteannotation"@ && *b == parse_num(args_get(a, "id"@), 65535),
            Body::MoveRegion(b) => name == "moveregion"@ && b.spec_reads_text(a),
            Body::PutTile(b) => name == "puttile"@ && b.spec_reads_text(a),
            Body::CanvasBackground(b) => name == "background"@ && b@ == parse_bytes(args_get(a, "image"@)),
            Body::DrawDabsClassic(b) => name == "classicdabs"@ && b.spec_reads_text(a, d),
            Body::DrawDabsPixel(b) => name == "pixeldabs"@ && b.spec_reads_text(a, d),
            Body::DrawDabsPixelSquare(b) => name == "squarepixeldabs"@ && b.spec_reads_text(a, d),
            Body::Undo(b) => name == "undo"@ && b.spec_reads_text(a),
        }
    }
}

impl Message {
    /// The text message of this message
    #[verifier::rlimit(40)]
    pub fn as_text(&self) -> (t: TextMessage)
        ensures
            t.user_id == self.user_id,
            t.name@ == self.body.spec_text_name(),
            t.args_view() == args_set_all(ArgsView::empty(), self.body.spec_text_pairs()),
            t.dabs_view() == self.body.spec_text_dabs(),
    {
        proof {
            reveal_with_fuel(args_set_all, 2);
        }
        match &self.body {
            Body::Command(b) => {
                let t = TextMessage::new(self.user_id, "command").set("msg", b.clone());
                assert(seq![("msg"@, b@)].drop_last() =~= ArgsView::empty());
                t
            },
            Body::Disconnect(b) => b.to_text(TextMessage::new(self.user_id, "disconnect")),
            Body::Ping(b) => {
                let t = TextMessage::new(self.user_id, "ping").set_bool("is_pong", *b);
                assert(seq![("is_pong"@, bool_str(*b))].drop_last() =~= ArgsView::empty());
                t
            },
            Body::Join(b) => b.to_text(TextMessage::new(self.user_id, "join")),
            Body::Leave => TextMessage::new(self.user_id, "leave"),
            Body::SessionOwner(b) => {
                let t = TextMessage::new(self.user_id, "sessionowner").set_vec_u8("users", b.as_slice());
                assert(seq![("users"@, u8_list_str(b@))].drop_last() =~= ArgsView::empty());
                t
            },
            Body::Chat(b) => b.to_text(TextMessage::new(self.user_id, "chat")),
            Body::TrustedUsers(b) => {
                let t = TextMessage::new(self.user_id, "trusted").set_vec_u8("users", b.as_slice());
                assert(seq![("users"@, u8_list_str(b@))].drop_last() =~= ArgsView::empty());
                t
            },
            Body::SoftReset => TextMessage::new(self.user_id, "softreset"),
            Body::PrivateChat(b) => b.to_text(TextMessage::new(self.user_id, "privatechat")),
            Body::Interval(b) => {
                let t = TextMessage::new(self.user_id, "interval").set_dec("msecs", *b as i64);
                assert(seq![("msecs"@, int_str(*b as int))].drop_last() =~= ArgsView::empty());
                t
            },
            Body::LaserTrail(b) => b.to_text(TextMessage::new(self.user_id, "lasertrail")),
            Body::MovePointer(b) => b.to_text(TextMessage::new(self.user_id, "movepointer")),
            Body::Marker(b) => {
                let t = TextMessage::new(self.user_id, "marker").set("text", b.clone());
                assert(seq![("text"@, b@)].drop_last() =~= ArgsView::empty());
                t
            },
            Body::UserACL(b) => {
                let t = TextMessage::new(self.user_id, "useracl").set_vec_u8("users", b.as_slice());
                assert(seq![("users"@, u8_list_str(b@))].drop_last() =~= ArgsView::empty());
                t
            },
            Body::LayerACL(b) => b.to_text(TextMessage::new(self.user_id, "layeracl")),
            Body::FeatureAccessLevels(b) => {
                let t = TextMessage::new(self.user_id, "featureaccess").set_vec_u8("feature_tiers", b.as_slice());
                assert(seq![("feature_tiers"@, u8_list_str(b@))].drop_last() =~= ArgsView::empty());
                t
            },
            Body::DefaultLayer(b) => {
                let t = TextMessage::new(self.user_id, "defaultlayer").set_hex16("id", *b);
                assert(seq![("id"@, hex16_str(*b))].drop_last() =~= ArgsView::empty());
                t
            },
            Body::Filtered(b) => {
                let t = TextMessage::new(self.user_id, "filtered").set_bytes("message", b.as_slice());
                assert(seq![("message"@, base64_encode(b@))].drop_last() =~= ArgsView::empty());
                t
            },
            Body::UndoPoint => TextMessage::new(self.user_id, "undopoint"),
            Body::CanvasResize(b) => b.to_text(TextMessage::new(self.user_id, "resize")),
            Body::LayerCreate(b) => b.to_text(TextMessage::new(self.user_id, "newlayer")),
            Body::LayerAttributes(b) => b.to_text(TextMessage::new(self.user_id, "layerattr")),
            Body::LayerRetitle(b) => b.to_text(TextMessage::new(self.user_id, "retitlelayer")),
            Body::LayerOrder(b) => {
                let t = TextMessage::new(self.user_id, "layerorder").set_vec_u16("layers", b.as_slice(), true);
                assert(seq![("layers"@, u16_list_str(b@, true))].drop_last() =~= ArgsView::empty());
                t
            },
            Body::LayerDelete(b) => b.to_text(TextMessage::new(self.user_id, "deletelayer")),
            Body::LayerVisibility(b) => b.to_text(TextMessage::new(self.user_id, "layervisibility")),
            Body::PutImage(b) => b.to_text(TextMessage::new(self.user_id, "putimage")),
            Body::FillRect(b) => b.to_text(TextMessage::new(self.user_id, "fillrect")),
            Body::PenUp => TextMessage::new(self.user_id, "penup"),
            Body::AnnotationCreate(b) => b.to_text(TextMessage::new(self.user_id, "newannotation")),
            Body::AnnotationReshape(b) => b.to_text(TextMessage::new(self.user_id, "reshapeannotation")),
            Body::AnnotationEdit(b) => b.to_text(TextMessage::new(self.user_id, "editannotation")),
            Body::AnnotationDelete(b) => {
                let t = TextMessage::new(self.user_id, "deleteannotation").set_hex16("id", *b);
                assert(seq![("id"@, hex16_str(*b))].drop_last() =~= ArgsView::empty());
                t
            },
            Body::MoveRegion(b) => b.to_text(TextMessage::new(self.user_id, "moveregion")),
            Body::PutTile(b) => b.to_text(TextMessage::new(self.user_id, "puttile")),
            Body::CanvasBackground(b) => {
                let t = TextMessage::new(self.user_id, "background").set_bytes("image", b.as_slice());
                assert(seq![("image"@, base64_encode(b@))].drop_last() =~= ArgsView::empty());
                t
            },
            Body::DrawDabsClassic(b) => b.to_text(TextMessage::new(self.user_id, "classicdabs")),
            Body::DrawDabsPixel(b) => b.to_text(TextMessage::new(self.user_id, "pixeldabs")),
            Body::DrawDabsPixelSquare(b) => b.to_text(TextMessage::new(self.user_id, "squarepixeldabs")),
            Body::Undo(b) => b.to_text(TextMessage::new(self.user_id, "undo")),
        }
    }

    /// The message of a text message; `None` when its name is not one of a message
    #[verifier::rlimit(60)]
    pub fn from_text(tm: &TextMessage) -> (r: Option<Message>)
        ensures
            r is Some <==> Body::spec_text_known(tm.name@),
            r matches Some(m) ==> m.user_id == tm.user_id && m.body.spec_reads_text(
                tm.name@,
                tm.args_view(),
                tm.dabs_view(),
            ),
    {
        let chars = str_chars(tm.name.as_str());
        let n = chars.as_slice();
        let body = if name_is(n, "command") {
            Body::Command(tm.get_str("msg"))
        } else if name_is(n, "disconnect") {
            Body::Disconnect(DisconnectMessage::from_text(tm))
        } else if name_is(n, "ping") {
            Body::Ping(tm.get_bool("is_pong"))
        } else if name_is(n, "join") {
            Body::Join(JoinMessage::from_text(tm))
        } else if name_is(n, "leave") {
            Body::Leave
        } else if name_is(n, "sessionowner") {
            Body::SessionOwner(tm.get_vec_u8("users"))
        } else if name_is(n, "chat") {
            Body::Chat(ChatMessage::from_text(tm))
        } else if name_is(n, "trusted") {
            Body::TrustedUsers(tm.get_vec_u8("users"))
        } else if name_is(n, "softreset") {
            Body::SoftReset
        } else if name_is(n, "privatechat") {
            Body::PrivateChat(PrivateChatMessage::from_text(tm))
        } else if name_is(n, "interval") {
            Body::Interval(tm.get_u16("msecs"))
        } else if name_is(n, "lasertrail") {
            Body::LaserTrail(LaserTrailMessage::from_text(tm))
        } else if name_is(n, "movepointer") {
            Body::MovePointer(MovePointerMessage::from_text(tm))
        } else if name_is(n, "marker") {
            Body::Marker(tm.get_str("text"))
        } else if name_is(n, "useracl") {
            Body::UserACL(tm.get_vec_u8("users"))
        } else if name_is(n, "layeracl") {
            Body::LayerACL(LayerACLMessage::from_text(tm))
        } else if name_is(n, "featureaccess") {
            Body::FeatureAccessLevels(tm.get_vec_u8("feature_tiers"))
        } else if name_is(n, "defaultlayer") {
            Body::DefaultLayer(tm.get_u16("id"))
        } else if name_is(n, "filtered") {
            Body::Filtered(tm.get_bytes("message"))
        } else if name_is(n, "undopoint") {
            Body::UndoPoint
        } else if name_is(n, "resize") {
            Body::CanvasResize(CanvasResizeMessage::from_text(tm))
        } else if name_is(n, "newlayer") {
            Body::LayerCreate(LayerCreateMessage::from_text(tm))
        } else if name_is(n, "layerattr") {
            Body::LayerAttributes(LayerAttributesMessage::from_text(tm))
        } else if name_is(n, "retitlelayer") {
            Body::LayerRetitle(LayerRetitleMessage::from_text(tm))
        } else if name_is(n, "layerorder") {
            Body::LayerOrder(tm.get_vec_u16("layers"))
        } else if name_is(n, "deletelayer") {
            Body::LayerDelete(LayerDeleteMessage::from_text(tm))
        } else if name_is(n, "layervisibility") {
            Body::LayerVisibility(LayerVisibilityMessage::from_text(tm))
        } else if name_is(n, "putimage") {
            Body::PutImage(PutImageMessage::from_text(tm))
        } else if name_is(n, "fillrect") {
            Body::FillRect(FillRectMessage::from_text(tm))
        } else if name_is(n, "penup") {
            Body::PenUp
        } else if name_is(n, "newannotation") {
            Body::AnnotationCreate(AnnotationCreateMessage::from_text(tm))
        } else if name_is(n, "reshapeannotation") {
            Body::AnnotationReshape(AnnotationReshapeMessage::from_text(tm))
        } else if name_is(n, "editannotation") {
            Body::AnnotationEdit(AnnotationEditMessage::from_text(tm))
        } else if name_is(n, "deleteannotation") {
            Body::AnnotationDelete(tm.get_u16("id"))
        } else if name_is(n, "moveregion") {
            Body::MoveRegion(MoveRegionMessage::from_text(tm))
        } else if name_is(n, "puttile") {
            Body::PutTile(PutTileMessage::from_text(tm))
        } else if name_is(n, "background") {
            Body::CanvasBackground(tm.get_bytes("image"))
        } else if name_is(n, "classicdabs") {
            Body::DrawDabsClassic(DrawDabsClassicMessage::from_text(tm))
        } else if name_is(n, "pixeldabs") {
            Body::DrawDabsPixel(DrawDabsPixelMessage::from_text(tm))
        } else if name_is(n, "squarepixeldabs") {
            Body::DrawDabsPixelSquare(DrawDabsPixelMessage::from_text(tm))
        } else if name_is(n, "undo") {
            Body::Undo(UndoMessage::from_text(tm))
        } else {
            return None;
        };
        Some(Message { user_id: tm.user_id, body })
    }

    /// Write the text form of this message
    pub fn to_string(&self) -> (s: String)
        ensures
            s@ == text_of(
                self.user_id,
                self.body.spec_text_name(),
                args_set_all(ArgsView::empty(), self.body.spec_text_pairs()),
                self.body.spec_text_dabs(),
            ),
    {
        self.as_text().to_string()
    }

    /// A message written in its text form reads back as the message: the
    /// text parses as its text message, and that text message is read as the
    /// message (when each flags value has only named bits)
    #[verifier::rlimit(80)]
    pub proof fn lemma_text_roundtrip(&self)
        requires
            self.body.spec_text_ok(),
        ensures
            ({
                let name = self.body.spec_text_name();
                let args = args_set_all(ArgsView::empty(), self.body.spec_text_pairs());
                let dabs = self.body.spec_text_dabs();
                &&& parse_text(text_of(self.user_id, name, args, dabs)) == Some(
                    (self.user_id, name, args, dabs),
                )
                &&& Body::spec_text_known(name)
                &&& self.body.spec_reads_text(name, args, dabs)
            }),
    {
        let name = self.body.spec_text_name();
        let p = self.body.spec_text_pairs();
        match &self.body {
            Body::Command(b) => {
                reveal_strlit("command");
                reveal_strlit("msg");
                lemma_set_all_keys_ok(p);
                lemma_get_all(p, 0);
                assert(dabs_ok(DabsView::empty()));
            },
            Body::Disconnect(b) => {
                reveal_strlit("disconnect");
                b.lemma_text_roundtrip();
                assert(dabs_ok(DabsView::empty()));
            },
            Body::Ping(b) => {
                reveal_strlit("ping");
                reveal_strlit("is_pong");
                lemma_set_all_keys_ok(p);
                lemma_get_all(p, 0);
                lemma_bool_str(*b);
                assert(dabs_ok(DabsView::empty()));
            },
            Body::Join(b) => {
                reveal_strlit("join");
                b.lemma_text_roundtrip();
                assert(dabs_ok(DabsView::empty()));
            },
            Body::Leave => {
                reveal_strlit("leave");
                lemma_set_all_keys_ok(p);
                assert(dabs_ok(DabsView::empty()));
            },
            Body::SessionOwner(b) => {
                reveal_strlit("sessionowner");
                reveal_strlit("users");
                lemma_set_all_keys_ok(p);
                lemma_get_all(p, 0);
                lemma_u8_list(b@);
                assert(dabs_ok(DabsView::empty()));
            },
            Body::Chat(b) => {
                reveal_strlit("chat");
                b.lemma_text_roundtrip();
                assert(dabs_ok(DabsView::empty()));
            },
            Body::TrustedUsers(b) => {
                reveal_strlit("trusted");
                reveal_strlit("users");
                lemma_set_all_keys_ok(p);
                lemma_get_all(p, 0);
                lemma_u8_list(b@);
                assert(dabs_ok(DabsView::empty()));
            },
            Body::SoftReset => {
                reveal_strlit("softreset");
                lemma_set_all_keys_ok(p);
                assert(dabs_ok(DabsView::empty()));
            },
            Body::PrivateChat(b) => {
                reveal_strlit("privatechat");
                b.lemma_text_roundtrip();
                assert(dabs_ok(DabsView::empty()));
            },
            Body::Interval(b) => {
                reveal_strlit("interval");
                reveal_strlit("msecs");
                lemma_set_all_keys_ok(p);
                lemma_get_all(p, 0);
                lemma_parse_num_dec(*b as nat, 65535);
                assert(dabs_ok(DabsView::empty()));
            },
            Body::LaserTrail(b) => {
                reveal_strlit("lasertrail");
                b.lemma_text_roundtrip();
                assert(dabs_ok(DabsView::empty()));
            },
            Body::MovePointer(b) => {
                reveal_strlit("movepointer");
                b.lemma_text_roundtrip();
                assert(dabs_ok(DabsView::empty()));
            },
            Body::Marker(b) => {
                reveal_strlit("marker");
                reveal_strlit("text");
                lemma_set_all_keys_ok(p);
                lemma_get_all(p, 0);
                assert(dabs_ok(DabsView::empty()));
            },
            Body::UserACL(b) => {
                reveal_strlit("useracl");
                reveal_strlit("users");
                lemma_set_all_keys_ok(p);
                lemma_get_all(p, 0);
                lemma_u8_list(b@);
                assert(dabs_ok(DabsView::empty()));
            },
            Body::LayerACL(b) => {
                reveal_strlit("layeracl");
                b.lemma_text_roundtrip();
                assert(dabs_ok(DabsView::empty()));
            },
            Body::FeatureAccessLevels(b) => {
                reveal_strlit("featureaccess");
                reveal_strlit("feature_tiers");
                lemma_set_all_keys_ok(p);
                lemma_get_all(p, 0);
                lemma_u8_list(b@);
                assert(dabs_ok(DabsView::empty()));
            },
            Body::DefaultLayer(b) => {
                reveal_strlit("defaultlayer");
                reveal_strlit("id");
                lemma_set_all_keys_ok(p);
                lemma_get_all(p, 0);
                lemma_parse_hex16(*b);
                assert(dabs_ok(DabsView::empty()));
            },
            Body::Filtered(b) => {
                reveal_strlit("filtered");
                reveal_strlit("message");
                lemma_set_all_keys_ok(p);
                lemma_get_all(p, 0);
                lemma_base64_roundtrip(b@);
                assert(dabs_ok(DabsView::empty()));
            },
            Body::UndoPoint => {
                reveal_strlit("undopoint");
                lemma_set_all_keys_ok(p);
                assert(dabs_ok(DabsView::empty()));
            },
            Body::CanvasResize(b) => {
                reveal_strlit("resize");
                b.lemma_text_roundtrip();
                assert(dabs_ok(DabsView::empty()));
            },
            Body::LayerCreate(b) => {
                reveal_strlit("newlayer");
                b.lemma_text_roundtrip();
                assert(dabs_ok(DabsView::empty()));
            },
            Body::LayerAttributes(b) => {
                reveal_strlit("layerattr");
                b.lemma_text_roundtrip();
                assert(dabs_ok(DabsView::empty()));
            },
            Body::LayerRetitle(b) => {
                reveal_strlit("retitlelayer");
                b.lemma_text_roundtrip();
                assert(dabs_ok(DabsView::empty()));
            },
            Body::LayerOrder(b) => {
                reveal_strlit("layerorder");
                reveal_strlit("layers");
                lemma_set_all_keys_ok(p);
                lemma_get_all(p, 0);
                lemma_u16_hex_list(b@);
                assert(dabs_ok(DabsView::empty()));
            },
            Body::LayerDelete(b) => {
                reveal_strlit("deletelayer");
                b.lemma_text_roundtrip();
                assert(dabs_ok(DabsView::empty()));
            },
            Body::LayerVisibility(b) => {
                reveal_strlit("layervisibility");
                b.lemma_text_roundtrip();
                assert(dabs_ok(DabsView::empty()));
            },
            Body::PutImage(b) => {
                reveal_strlit("putimage");
                b.lemma_text_roundtrip();
                assert(dabs_ok(DabsView::empty()));
            },
            Body::FillRect(b) => {
                reveal_strlit("fillrect");
                b.lemma_text_roundtrip();
                assert(dabs_ok(DabsView::empty()));
            },
            Body::PenUp => {
                reveal_strlit("penup");
                lemma_set_all_keys_ok(p);
                assert(dabs_ok(DabsView::empty()));
            },
            Body::AnnotationCreate(b) => {
                reveal_strlit("newannotation");
                b.lemma_text_roundtrip();
                assert(dabs_ok(DabsView::empty()));
            },
            Body::AnnotationReshape(b) => {
                reveal_strlit("reshapeannotation");
                b.lemma_text_roundtrip();
                assert(dabs_ok(DabsView::empty()));
            },
            Body::AnnotationEdit(b) => {
                reveal_strlit("editannotation");
                b.lemma_text_roundtrip();
                assert(dabs_ok(DabsView::empty()));
            },
            Body::AnnotationDelete(b) => {
                reveal_strlit("deleteannotation");
                reveal_strlit("id");
                lemma_set_all_keys_ok(p);
                lemma_get_all(p, 0);
                lemma_parse_hex16(*b);
                assert(dabs_ok(DabsView::empty()));
            },
            Body::MoveRegion(b) => {
                reveal_strlit("moveregion");
                b.lemma_text_roundtrip();
                assert(dabs_ok(DabsView::empty()));
            },
            Body::PutTile(b) => {
                reveal_strlit("puttile");
                b.lemma_text_roundtrip();
                assert(dabs_ok(DabsView::empty()));
            },
            Body::CanvasBackground(b) => {
                reveal_strlit("background");
                reveal_strlit("image");
                lemma_set_all_keys_ok(p);
                lemma_get_all(p, 0);
                lemma_base64_roundtrip(b@);
                assert(dabs_ok(DabsView::empty()));
            },
            Body::DrawDabsClassic(b) => {
                reveal_strlit("classicdabs");
                b.lemma_text_roundtrip();
            },
            Body::DrawDabsPixel(b) => {
                reveal_strlit("pixeldabs");
                b.lemma_text_roundtrip();
            },
            Body::DrawDabsPixelSquare(b) => {
                reveal_strlit("squarepixeldabs");
                b.lemma_text_roundtrip();
            },
            Body::Undo(b) => {
                reveal_strlit("undo");
                b.lemma_text_roundtrip();
                assert(dabs_ok(DabsView::empty()));
            },
        }
        let args = args_set_all(ArgsView::empty(), p);
        let dabs = self.body.spec_text_dabs();
        assert(text_wf(name, args, dabs));
        lemma_text_roundtrip(self.user_id, name, args, dabs);
    }
}

} // verus!
