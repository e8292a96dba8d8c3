//! Pixel blending operations on premultiplied 32 bit ARGB pixels.
//!
//! The modes that blend in floating point (the compositing modes and color
//! erase) are not performed here: `pixel_blend` and `mask_blend` report that
//! they left the pixels untouched, and the caller performs them.
use super::blendmode::Blendmode;
use vstd::arithmetic::div_mod::lemma_div_is_ordered;
use vstd::arithmetic::mul::lemma_mul_inequality;
use vstd::prelude::*;

verus! {

// ---------------------------------------------------------------------------
// Channels
// ---------------------------------------------------------------------------

pub open spec fn ch_a(c: u32) -> u32 {
    c / 0x100_0000
}

pub open spec fn ch_r(c: u32) -> u32 {
    (c / 0x1_0000) % 256
}

pub open spec fn ch_g(c: u32) -> u32 {
    (c / 256) % 256
}

pub open spec fn ch_b(c: u32) -> u32 {
    c % 256
}

/// The pixel with the given channel values (each at most 255)
pub open spec fn argb(a: int, r: int, g: int, b: int) -> u32 {
    (a * 0x100_0000 + r * 0x1_0000 + g * 256 + b) as u32
}

/// A premultiplied pixel: no color channel exceeds the alpha channel
pub open spec fn premultiplied(c: u32) -> bool {
    &&& ch_r(c) <= ch_a(c)
    &&& ch_g(c) <= ch_a(c)
    &&& ch_b(c) <= ch_a(c)
}

/// Product of two 8 bit fractions (255 standing for 1.0), rounded
pub open spec fn mult(a: int, b: int) -> int {
    let c = a * b + 0x80;
    (c / 256 + c) / 256
}

fn split_channels(c: u32) -> (r: (u32, u32, u32, u32))
    ensures
        r == (ch_a(c), ch_r(c), ch_g(c), ch_b(c)),
{
    let r = (c >> 24, (c & 0x00ff0000) >> 16, (c & 0x0000ff00) >> 8, c & 0x000000ff);
    assert(c >> 24 == c / 0x100_0000 && (c & 0x00ff0000) >> 16 == (c / 0x1_0000) % 256 && (c
        & 0x0000ff00) >> 8 == (c / 256) % 256 && c & 0x000000ff == c % 256) by (bit_vector);
    r
}

fn get_alpha(c: u32) -> (r: u32)
    ensures
        r == ch_a(c),
{
    assert(c >> 24 == c / 0x100_0000) by (bit_vector);
    c >> 24
}

fn combine_channels(a: u32, r: u32, g: u32, b: u32) -> (c: u32)
    requires
        a <= 0xff,
        r <= 0xff,
        g <= 0xff,
        b <= 0xff,
    ensures
        c == argb(a as int, r as int, g as int, b as int),
{
    assert((a << 24) | (r << 16) | (g << 8) | b == a * 0x100_0000 + r * 0x1_0000 + g * 256 + b)
        by (bit_vector)
        requires
            a <= 0xff,
            r <= 0xff,
            g <= 0xff,
            b <= 0xff,
    ;
    (a << 24) | (r << 16) | (g << 8) | b
}

fn u8_mult(a: u32, b: u32) -> (r: u32)
    requires
        a <= 255,
        b <= 255,
    ensures
        r == mult(a as int, b as int),
        r <= 255,
{
    proof {
        lemma_mult_le(a as int, b as int);
        assert(a * b <= 255 * 255) by (nonlinear_arith)
            requires
                a <= 255,
                b <= 255,
        ;
    }
    let c = a * b + 0x80;
    assert((c >> 8) == c / 256) by (bit_vector);
    let d = (c >> 8) + c;
    assert(d >> 8 == d / 256) by (bit_vector);
    d >> 8
}

// ---------------------------------------------------------------------------
// Facts about the rounded product
// ---------------------------------------------------------------------------

/// The product is no larger than either factor
pub proof fn lemma_mult_le(a: int, b: int)
    requires
        0 <= a <= 255,
        0 <= b <= 255,
    ensures
        0 <= mult(a, b) <= b,
        mult(a, b) <= a,
        mult(a, b) == mult(b, a),
{
    assert(a * b == b * a) by (nonlinear_arith);
    lemma_mult_le_right(a, b);
    lemma_mult_le_right(b, a);
}

proof fn lemma_mult_le_right(a: int, b: int)
    requires
        0 <= a <= 255,
        0 <= b <= 255,
    ensures
        0 <= mult(a, b) <= b,
{
    let c = a * b + 0x80;
    assert(0 <= a * b <= 255 * b) by (nonlinear_arith)
        requires
            0 <= a <= 255,
            0 <= b,
    ;
    assert(c / 256 <= b) by (nonlinear_arith)
        requires
            0 <= c <= 255 * b + 128,
            0 <= b,
    ;
    assert((c / 256 + c) / 256 <= b) by (nonlinear_arith)
        requires
            0 <= c / 256 <= b,
            0 <= c <= 255 * b + 128,
    ;
}

/// The product grows with its first factor
pub proof fn lemma_mult_monotone(a1: int, a2: int, b: int)
    requires
        0 <= a1 <= a2 <= 255,
        0 <= b <= 255,
    ensures
        mult(a1, b) <= mult(a2, b),
{
    lemma_mul_inequality(a1, a2, b);
    let c1 = a1 * b + 0x80;
    let c2 = a2 * b + 0x80;
    lemma_div_is_ordered(c1, c2, 256);
    lemma_div_is_ordered(c1 / 256 + c1, c2 / 256 + c2, 256);
}

/// Multiplying by 255 (that is, by 1.0) changes nothing
pub proof fn lemma_mult_one(b: u32)
    requires
        b <= 255,
    ensures
        mult(255, b as int) == b,
        mult(b as int, 255) == b,
{
    assert(((255 * b + 128) / 256 + (255 * b + 128)) / 256 == b) by (bit_vector)
        requires
            b <= 255,
    ;
    assert(255 * b == b * 255) by (nonlinear_arith);
}

/// Multiplying by zero gives zero
pub proof fn lemma_mult_zero(b: int)
    requires
        0 <= b <= 255,
    ensures
        mult(0, b) == 0,
        mult(b, 0) == 0,
{
    assert(0 * b == 0 && b * 0 == 0) by (nonlinear_arith);
}

// ---------------------------------------------------------------------------
// Per pixel operations
// ---------------------------------------------------------------------------

/// Normal ("over") blending of source pixel `s` with opacity `o` onto `d`
pub open spec fn blend_normal(d: u32, s: u32, o: int) -> u32 {
    let sa = mult(ch_a(s) as int, o);
    let a_s = 255 - sa;
    argb(
        sa + mult(ch_a(d) as int, a_s),
        mult(ch_r(s) as int, o) + mult(ch_r(d) as int, a_s),
        mult(ch_g(s) as int, o) + mult(ch_g(d) as int, a_s),
        mult(ch_b(s) as int, o) + mult(ch_b(d) as int, a_s),
    )
}

/// Blending of source pixel `s` with opacity `o` behind `d`
pub open spec fn blend_under(d: u32, s: u32, o: int) -> u32 {
    let a_s = mult(255 - ch_a(d), mult(ch_a(s) as int, o));
    argb(
        mult(ch_a(s) as int, a_s) + ch_a(d),
        mult(ch_r(s) as int, a_s) + ch_r(d),
        mult(ch_g(s) as int, a_s) + ch_g(d),
        mult(ch_b(s) as int, a_s) + ch_b(d),
    )
}

/// Blending of color `c` with mask value `m` behind `d`
pub open spec fn mask_under(d: u32, c: u32, m: int) -> u32 {
    let a = mult(255 - ch_a(d), m);
    argb(
        ch_a(d) + a,
        mult(ch_r(c) as int, a) + ch_r(d),
        mult(ch_g(c) as int, a) + ch_g(d),
        mult(ch_b(c) as int, a) + ch_b(d),
    )
}

/// Normal blending of color `c` with mask value `m` onto `d`
pub open spec fn mask_normal(d: u32, c: u32, m: int) -> u32 {
    let a = 255 - m;
    argb(
        m + mult(ch_a(d) as int, a),
        mult(ch_r(c) as int, m) + mult(ch_r(d) as int, a),
        mult(ch_g(c) as int, m) + mult(ch_g(d) as int, a),
        mult(ch_b(c) as int, m) + mult(ch_b(d) as int, a),
    )
}

/// Scaling every channel of `d` by `a`
pub open spec fn scale(d: u32, a: int) -> u32 {
    argb(
        mult(ch_a(d) as int, a),
        mult(ch_r(d) as int, a),
        mult(ch_g(d) as int, a),
        mult(ch_b(d) as int, a),
    )
}

/// Erasing `d` with the alpha of source pixel `s` at opacity `o`
pub open spec fn erase_pixel(d: u32, s: u32, o: int) -> u32 {
    scale(d, 255 - mult(ch_a(s) as int, o))
}

/// Erasing `d` with mask value `m`
pub open spec fn erase_mask(d: u32, m: int) -> u32 {
    scale(d, 255 - m)
}

/// Replacing with source pixel `s` at opacity `o`
pub open spec fn replace_pixel(s: u32, o: int) -> u32 {
    scale(s, o)
}

/// `base` after applying `f` to each pixel together with the pixel of
/// `over` at the same index, for as many pixels as both have
pub open spec fn zipped_with(
    base: Seq<u32>,
    over: Seq<u32>,
    f: spec_fn(u32, u32) -> u32,
) -> Seq<u32> {
    Seq::new(
        base.len(),
        |i: int|
            if i < over.len() {
                f(base[i], over[i])
            } else {
                base[i]
            },
    )
}

/// `base` after applying `f` to each pixel together with the mask value
/// at the same index, for as many pixels as both have
pub open spec fn masked_with(base: Seq<u32>, mask: Seq<u8>, f: spec_fn(u32, u8) -> u32) -> Seq<
    u32,
> {
    Seq::new(
        base.len(),
        |i: int|
            if i < mask.len() {
                f(base[i], mask[i])
            } else {
                base[i]
            },
    )
}

/// All pixels of a sequence are premultiplied, for the first `n` of them
pub open spec fn all_premultiplied(s: Seq<u32>, n: int) -> bool {
    forall|i: int| 0 <= i < n && i < s.len() ==> premultiplied(#[trigger] s[i])
}

pub open spec fn min_len(a: int, b: int) -> int {
    if a < b {
        a
    } else {
        b
    }
}

/// Perform a premultiplied alpha blend operation on a slice of 32 bit ARGB pixels
pub fn alpha_pixel_blend(base: &mut [u32], over: &[u32], opacity: u8)
    requires
        all_premultiplied(over@, old(base)@.len() as int),
    ensures
        final(base)@ == zipped_with(
            old(base)@,
            over@,
            |d: u32, s: u32| blend_normal(d, s, opacity as int),
        ),
{
    let o = opacity as u32;
    let n = if base.len() < over.len() {
        base.len()
    } else {
        over.len()
    };
    let mut i: usize = 0;
    while i < n
        invariant
            n == min_len(old(base)@.len() as int, over@.len() as int),
            i <= n,
            o == opacity,
            all_premultiplied(over@, old(base)@.len() as int),
            base@.len() == old(base)@.len(),
            forall|j: int|
                0 <= j < i ==> #[trigger] base@[j] == blend_normal(
                    old(base)@[j],
                    over@[j],
                    opacity as int,
                ),
            forall|j: int| i <= j < base@.len() ==> #[trigger] base@[j] == old(base)@[j],
        decreases n - i,
    {
        let (da, dr, dg, db) = split_channels(base[i]);
        let (sa, sr, sg, sb) = split_channels(over[i]);
        let x = u8_mult(sa, o);
        let a_s = 255 - x;
        proof {
            assert(premultiplied(over@[i as int]));
            lemma_mult_le(da as int, a_s as int);
            lemma_mult_le(dr as int, a_s as int);
            lemma_mult_le(dg as int, a_s as int);
            lemma_mult_le(db as int, a_s as int);
            lemma_mult_monotone(sr as int, sa as int, o as int);
            lemma_mult_monotone(sg as int, sa as int, o as int);
            lemma_mult_monotone(sb as int, sa as int, o as int);
        }
        let na = x + u8_mult(da, a_s);
        let nr = u8_mult(sr, o) + u8_mult(dr, a_s);
        let ng = u8_mult(sg, o) + u8_mult(dg, a_s);
        let nb = u8_mult(sb, o) + u8_mult(db, a_s);
        base[i] = combine_channels(na, nr, ng, nb);
        i += 1;
    }
    assert(base@ =~= zipped_with(
        old(base)@,
        over@,
        |d: u32, s: u32| blend_normal(d, s, opacity as int),
    ));
}

/// Perform a premultiplied alpha blend operation on a slice of 32 bit ARGB pixels,
/// drawing the source pixels behind the existing ones
pub fn alpha_pixel_under(base: &mut [u32], over: &[u32], opacity: u8)
    requires
        all_premultiplied(old(base)@, over@.len() as int),
    ensures
        final(base)@ == zipped_with(
            old(base)@,
            over@,
            |d: u32, s: u32| blend_under(d, s, opacity as int),
        ),
{
    let o = opacity as u32;
    let n = if base.len() < over.len() {
        base.len()
    } else {
        over.len()
    };
    let mut i: usize = 0;
    while i < n
        invariant
            n == min_len(old(base)@.len() as int, over@.len() as int),
            i <= n,
            o == opacity,
            all_premultiplied(old(base)@, over@.len() as int),
            base@.len() == old(base)@.len(),
            forall|j: int|
                0 <= j < i ==> #[trigger] base@[j] == blend_under(
                    old(base)@[j],
                    over@[j],
                    opacity as int,
                ),
            forall|j: int| i <= j < base@.len() ==> #[trigger] base@[j] == old(base)@[j],
        decreases n - i,
    {
        let ghost dp = base@[i as int];
        assert(premultiplied(old(base)@[i as int]));
        let (da, dr, dg, db) = split_channels(base[i]);
        let (sa, sr, sg, sb) = split_channels(over[i]);
        let so = u8_mult(sa, o);
        let a_s = u8_mult(255 - da, so);
        proof {
            lemma_mult_le((255 - da) as int, so as int);
            lemma_mult_le(sa as int, a_s as int);
            lemma_mult_le(sr as int, a_s as int);
            lemma_mult_le(sg as int, a_s as int);
            lemma_mult_le(sb as int, a_s as int);
        }
        let na = u8_mult(sa, a_s) + da;
        let nr = u8_mult(sr, a_s) + dr;
        let ng = u8_mult(sg, a_s) + dg;
        let nb = u8_mult(sb, a_s) + db;
        base[i] = combine_channels(na, nr, ng, nb);
        i += 1;
    }
    assert(base@ =~= zipped_with(
        old(base)@,
        over@,
        |d: u32, s: u32| blend_under(d, s, opacity as int),
    ));
}

/// Perform a premultiplied alpha blend on a slice of 32 bit ARGB pixels
/// and a color + alpha mask vector, drawing behind the existing pixels.
pub fn alpha_mask_under(base: &mut [u32], color: u32, mask: &[u8])
    requires
        old(base)@.len() == mask@.len(),
        all_premultiplied(old(base)@, mask@.len() as int),
    ensures
        final(base)@ == masked_with(
            old(base)@,
            mask@,
            |d: u32, m: u8| mask_under(d, color, m as int),
        ),
{
    let (_, cr, cg, cb) = split_channels(color);
    let n = base.len();
    let mut i: usize = 0;
    while i < n
        invariant
            n == old(base)@.len() == mask@.len(),
            i <= n,
            cr == ch_r(color) && cg == ch_g(color) && cb == ch_b(color),
            all_premultiplied(old(base)@, mask@.len() as int),
            base@.len() == old(base)@.len(),
            forall|j: int|
                0 <= j < i ==> #[trigger] base@[j] == mask_under(
                    old(base)@[j],
                    color,
                    mask@[j] as int,
                ),
            forall|j: int| i <= j < base@.len() ==> #[trigger] base@[j] == old(base)@[j],
        decreases n - i,
    {
        let ghost dp = base@[i as int];
        assert(premultiplied(old(base)@[i as int]));
        let (da, dr, dg, db) = split_channels(base[i]);
        let m = mask[i] as u32;
        let a = u8_mult(255 - da, m);
        proof {
            lemma_mult_le((255 - da) as int, m as int);
            lemma_mult_le(cr as int, a as int);
            lemma_mult_le(cg as int, a as int);
            lemma_mult_le(cb as int, a as int);
        }
        let na = da + a;
        let nr = u8_mult(cr, a) + dr;
        let ng = u8_mult(cg, a) + dg;
        let nb = u8_mult(cb, a) + db;
        base[i] = combine_channels(na, nr, ng, nb);
        i += 1;
    }
    assert(base@ =~= masked_with(
        old(base)@,
        mask@,
        |d: u32, m: u8| mask_under(d, color, m as int),
    ));
}

/// Replace pixels with the source pixels at the given opacity
pub fn pixel_replace(base: &mut [u32], over: &[u32], opacity: u8)
    ensures
        final(base)@ == zipped_with(
            old(base)@,
            over@,
            |d: u32, s: u32| replace_pixel(s, opacity as int),
        ),
{
    let o = opacity as u32;
    let n = if base.len() < over.len() {
        base.len()
    } else {
        over.len()
    };
    let mut i: usize = 0;
    while i < n
        invariant
            n == min_len(old(base)@.len() as int, over@.len() as int),
            i <= n,
            o == opacity,
            base@.len() == old(base)@.len(),
            forall|j: int|
                0 <= j < i ==> #[trigger] base@[j] == replace_pixel(over@[j], opacity as int),
            forall|j: int| i <= j < base@.len() ==> #[trigger] base@[j] == old(base)@[j],
        decreases n - i,
    {
        let (sa, sr, sg, sb) = split_channels(over[i]);
        let da = u8_mult(sa, o);
        let dr = u8_mult(sr, o);
        let dg = u8_mult(sg, o);
        let db = u8_mult(sb, o);
        base[i] = combine_channels(da, dr, dg, db);
        i += 1;
    }
    assert(base@ =~= zipped_with(
        old(base)@,
        over@,
        |d: u32, s: u32| replace_pixel(s, opacity as int),
    ));
}

/// Perform a premultiplied alpha blend on a slice of 32 bit ARGB pixels
/// and a color + alpha mask vector.
pub fn alpha_mask_blend(base: &mut [u32], color: u32, mask: &[u8])
    requires
        old(base)@.len() == mask@.len(),
    ensures
        final(base)@ == masked_with(
            old(base)@,
            mask@,
            |d: u32, m: u8| mask_normal(d, color, m as int),
        ),
{
    let (_, cr, cg, cb) = split_channels(color);
    let n = base.len();
    let mut i: usize = 0;
    while i < n
        invariant
            n == old(base)@.len() == mask@.len(),
            i <= n,
            cr == ch_r(color) && cg == ch_g(color) && cb == ch_b(color),
            base@.len() == old(base)@.len(),
            forall|j: int|
                0 <= j < i ==> #[trigger] base@[j] == mask_normal(
                    old(base)@[j],
                    color,
                    mask@[j] as int,
                ),
            forall|j: int| i <= j < base@.len() ==> #[trigger] base@[j] == old(base)@[j],
        decreases n - i,
    {
        let ghost dp = base@[i as int];
        let (da, dr, dg, db) = split_channels(base[i]);
        let m = mask[i] as u32;
        let a = 255 - m;
        proof {
            lemma_mult_le(da as int, a as int);
            lemma_mult_le(dr as int, a as int);
            lemma_mult_le(dg as int, a as int);
            lemma_mult_le(db as int, a as int);
            lemma_mult_le(cr as int, m as int);
            lemma_mult_le(cg as int, m as int);
            lemma_mult_le(cb as int, m as int);
        }
        let na = m + u8_mult(da, a);
        let nr = u8_mult(cr, m) + u8_mult(dr, a);
        let ng = u8_mult(cg, m) + u8_mult(dg, a);
        let nb = u8_mult(cb, m) + u8_mult(db, a);
        base[i] = combine_channels(na, nr, ng, nb);
        i += 1;
    }
    assert(base@ =~= masked_with(
        old(base)@,
        mask@,
        |d: u32, m: u8| mask_normal(d, color, m as int),
    ));
}

/// Erase alpha channel
pub fn alpha_mask_erase(base: &mut [u32], mask: &[u8])
    requires
        old(base)@.len() == mask@.len(),
    ensures
        final(base)@ == masked_with(old(base)@, mask@, |d: u32, m: u8| erase_mask(d, m as int)),
{
    let n = base.len();
    let mut i: usize = 0;
    while i < n
        invariant
            n == old(base)@.len() == mask@.len(),
            i <= n,
            base@.len() == old(base)@.len(),
            forall|j: int|
                0 <= j < i ==> #[trigger] base@[j] == erase_mask(old(base)@[j], mask@[j] as int),
            forall|j: int| i <= j < base@.len() ==> #[trigger] base@[j] == old(base)@[j],
        decreases n - i,
    {
        let ghost dp = base@[i as int];
        let (da, dr, dg, db) = split_channels(base[i]);
        let m = mask[i] as u32;
        let a = 255 - m;
        let na = u8_mult(da, a);
        let nr = u8_mult(dr, a);
        let ng = u8_mult(dg, a);
        let nb = u8_mult(db, a);
        base[i] = combine_channels(na, nr, ng, nb);
        i += 1;
    }
    assert(base@ =~= masked_with(old(base)@, mask@, |d: u32, m: u8| erase_mask(d, m as int)));
}

/// Erase using alpha channel of source pixels
pub fn alpha_pixel_erase(base: &mut [u32], over: &[u32], opacity: u8)
    ensures
        final(base)@ == zipped_with(
            old(base)@,
            over@,
            |d: u32, s: u32| erase_pixel(d, s, opacity as int),
        ),
{
    let o = opacity as u32;
    let n = if base.len() < over.len() {
        base.len()
    } else {
        over.len()
    };
    let mut i: usize = 0;
    while i < n
        invariant
            n == min_len(old(base)@.len() as int, over@.len() as int),
            i <= n,
            o == opacity,
            base@.len() == old(base)@.len(),
            forall|j: int|
                0 <= j < i ==> #[trigger] base@[j] == erase_pixel(
                    old(base)@[j],
                    over@[j],
                    opacity as int,
                ),
            forall|j: int| i <= j < base@.len() ==> #[trigger] base@[j] == old(base)@[j],
        decreases n - i,
    {
        let ghost dp = base@[i as int];
        let (da, dr, dg, db) = split_channels(base[i]);
        let a = 255 - u8_mult(get_alpha(over[i]), o);
        let na = u8_mult(da, a);
        let nr = u8_mult(dr, a);
        let ng = u8_mult(dg, a);
        let nb = u8_mult(db, a);
        base[i] = combine_channels(na, nr, ng, nb);
        i += 1;
    }
    assert(base@ =~= zipped_with(
        old(base)@,
        over@,
        |d: u32, s: u32| erase_pixel(d, s, opacity as int),
    ));
}

/// The modes that `pixel_blend` performs (the others blend in floating point)
pub open spec fn integer_pixel_mode(m: Blendmode) -> bool {
    m is Normal || m is Erase || m is Behind || m is Replace
}

/// The modes that `mask_blend` performs (the others blend in floating point)
pub open spec fn integer_mask_mode(m: Blendmode) -> bool {
    m is Normal || m is Erase || m is Behind
}

/// Blend pixels `over` onto `base` with the given opacity and mode.
///
/// Returns whether the mode was one of the integer modes performed here;
/// for the other modes `base` is left as it was.
pub fn pixel_blend(base: &mut [u32], over: &[u32], opacity: u8, mode: Blendmode) -> (done: bool)
    requires
        mode is Normal ==> all_premultiplied(over@, old(base)@.len() as int),
        mode is Behind ==> all_premultiplied(old(base)@, over@.len() as int),
    ensures
        done <==> integer_pixel_mode(mode),
        mode is Normal ==> final(base)@ == zipped_with(
            old(base)@,
            over@,
            |d: u32, s: u32| blend_normal(d, s, opacity as int),
        ),
        mode is Erase ==> final(base)@ == zipped_with(
            old(base)@,
            over@,
            |d: u32, s: u32| erase_pixel(d, s, opacity as int),
        ),
        mode is Behind ==> final(base)@ == zipped_with(
            old(base)@,
            over@,
            |d: u32, s: u32| blend_under(d, s, opacity as int),
        ),
        mode is Replace ==> final(base)@ == zipped_with(
            old(base)@,
            over@,
            |d: u32, s: u32| replace_pixel(s, opacity as int),
        ),
        !done ==> final(base)@ == old(base)@,
{
    match mode {
        Blendmode::Normal => {
            alpha_pixel_blend(base, over, opacity);
            true
        },
        Blendmode::Erase => {
            alpha_pixel_erase(base, over, opacity);
            true
        },
        Blendmode::Behind => {
            alpha_pixel_under(base, over, opacity);
            true
        },
        Blendmode::Replace => {
            pixel_replace(base, over, opacity);
            true
        },
        _ => false,
    }
}

/// Blend `color` onto `base` through an alpha mask with the given mode.
///
/// Returns whether the mode was one of the integer modes performed here;
/// for the other modes `base` is left as it was. Replace mode cannot be
/// used with a mask.
pub fn mask_blend(base: &mut [u32], color: u32, mask: &[u8], mode: Blendmode) -> (done: bool)
    requires
        !(mode is Replace),
        integer_mask_mode(mode) ==> old(base)@.len() == mask@.len(),
        mode is Behind ==> all_premultiplied(old(base)@, mask@.len() as int),
    ensures
        done <==> integer_mask_mode(mode),
        mode is Normal ==> final(base)@ == masked_with(
            old(base)@,
            mask@,
            |d: u32, m: u8| mask_normal(d, color, m as int),
        ),
        mode is Erase ==> final(base)@ == masked_with(
            old(base)@,
            mask@,
            |d: u32, m: u8| erase_mask(d, m as int),
        ),
        mode is Behind ==> final(base)@ == masked_with(
            old(base)@,
            mask@,
            |d: u32, m: u8| mask_under(d, color, m as int),
        ),
        !done ==> final(base)@ == old(base)@,
{
    match mode {
        Blendmode::Normal => {
            alpha_mask_blend(base, color, mask);
            true
        },
        Blendmode::Erase => {
            alpha_mask_erase(base, mask);
            true
        },
        Blendmode::Behind => {
            alpha_mask_under(base, color, mask);
            true
        },
        _ => false,
    }
}

// ---------------------------------------------------------------------------
// Laws
// ---------------------------------------------------------------------------

/// The channels of a pixel built from channel values are those values
pub proof fn lemma_argb_channels(a: int, r: int, g: int, b: int)
    requires
        0 <= a <= 255,
        0 <= r <= 255,
        0 <= g <= 255,
        0 <= b <= 255,
    ensures
        ch_a(argb(a, r, g, b)) == a,
        ch_r(argb(a, r, g, b)) == r,
        ch_g(argb(a, r, g, b)) == g,
        ch_b(argb(a, r, g, b)) == b,
{
    let x = a * 0x100_0000 + r * 0x1_0000 + g * 256 + b;
    assert(x / 0x100_0000 == a && (x / 0x1_0000) % 256 == r && (x / 256) % 256 == g && x % 256
        == b) by (nonlinear_arith)
        requires
            0 <= a <= 255,
            0 <= r <= 255,
            0 <= g <= 255,
            0 <= b <= 255,
            x == a * 0x100_0000 + r * 0x1_0000 + g * 256 + b,
    ;
}

/// A pixel is rebuilt from its channels
pub proof fn lemma_argb_of_channels(c: u32)
    ensures
        argb(ch_a(c) as int, ch_r(c) as int, ch_g(c) as int, ch_b(c) as int) == c,
        ch_a(c) <= 255,
{
    assert(c == (c / 0x100_0000) * 0x100_0000 + ((c / 0x1_0000) % 256) * 0x1_0000 + ((c / 256)
        % 256) * 256 + c % 256 && c / 0x100_0000 <= 255) by (nonlinear_arith);
}

/// Blending a premultiplied pixel onto a premultiplied pixel, in any of the
/// integer modes, gives a premultiplied pixel
pub proof fn lemma_blend_keeps_premultiplied(d: u32, s: u32, o: u8)
    requires
        premultiplied(d),
        premultiplied(s),
    ensures
        premultiplied(blend_normal(d, s, o as int)),
        premultiplied(blend_under(d, s, o as int)),
        premultiplied(erase_pixel(d, s, o as int)),
        premultiplied(replace_pixel(s, o as int)),
{
    lemma_argb_of_channels(d);
    lemma_argb_of_channels(s);
    let (da, dr, dg, db) = (ch_a(d) as int, ch_r(d) as int, ch_g(d) as int, ch_b(d) as int);
    let (sa, sr, sg, sb) = (ch_a(s) as int, ch_r(s) as int, ch_g(s) as int, ch_b(s) as int);
    let oi = o as int;
    // normal
    let x = mult(sa, oi);
    lemma_mult_le(sa, oi);
    let a_s = 255 - x;
    lemma_mult_le(da, a_s);
    lemma_mult_le(dr, a_s);
    lemma_mult_le(dg, a_s);
    lemma_mult_le(db, a_s);
    lemma_mult_monotone(sr, sa, oi);
    lemma_mult_monotone(sg, sa, oi);
    lemma_mult_monotone(sb, sa, oi);
    lemma_mult_monotone(dr, da, a_s);
    lemma_mult_monotone(dg, da, a_s);
    lemma_mult_monotone(db, da, a_s);
    lemma_argb_channels(
        x + mult(da, a_s),
        mult(sr, oi) + mult(dr, a_s),
        mult(sg, oi) + mult(dg, a_s),
        mult(sb, oi) + mult(db, a_s),
    );
    // under
    let u = mult(255 - da, x);
    lemma_mult_le(255 - da, x);
    lemma_mult_le(sa, u);
    lemma_mult_le(sr, u);
    lemma_mult_le(sg, u);
    lemma_mult_le(sb, u);
    lemma_mult_monotone(sr, sa, u);
    lemma_mult_monotone(sg, sa, u);
    lemma_mult_monotone(sb, sa, u);
    lemma_argb_channels(mult(sa, u) + da, mult(sr, u) + dr, mult(sg, u) + dg, mult(sb, u) + db);
    // erase
    lemma_scale_keeps_premultiplied(d, a_s);
    // replace
    lemma_scale_keeps_premultiplied(s, oi);
}

/// Scaling a premultiplied pixel gives a premultiplied pixel
pub proof fn lemma_scale_keeps_premultiplied(d: u32, a: int)
    requires
        premultiplied(d),
        0 <= a <= 255,
    ensures
        premultiplied(scale(d, a)),
{
    lemma_argb_of_channels(d);
    let (da, dr, dg, db) = (ch_a(d) as int, ch_r(d) as int, ch_g(d) as int, ch_b(d) as int);
    lemma_mult_le(da, a);
    lemma_mult_le(dr, a);
    lemma_mult_le(dg, a);
    lemma_mult_le(db, a);
    lemma_mult_monotone(dr, da, a);
    lemma_mult_monotone(dg, da, a);
    lemma_mult_monotone(db, da, a);
    lemma_argb_channels(mult(da, a), mult(dr, a), mult(dg, a), mult(db, a));
}

/// Drawing a color through a mask onto a premultiplied pixel gives a
/// premultiplied pixel
pub proof fn lemma_mask_keeps_premultiplied(d: u32, c: u32, m: u8)
    requires
        premultiplied(d),
    ensures
        premultiplied(mask_normal(d, c, m as int)),
        premultiplied(mask_under(d, c, m as int)),
        premultiplied(erase_mask(d, m as int)),
{
    lemma_argb_of_channels(d);
    lemma_argb_of_channels(c);
    let (da, dr, dg, db) = (ch_a(d) as int, ch_r(d) as int, ch_g(d) as int, ch_b(d) as int);
    let (cr, cg, cb) = (ch_r(c) as int, ch_g(c) as int, ch_b(c) as int);
    let mi = m as int;
    let a = 255 - mi;
    lemma_mult_le(da, a);
    lemma_mult_le(dr, a);
    lemma_mult_le(dg, a);
    lemma_mult_le(db, a);
    lemma_mult_le(cr, mi);
    lemma_mult_le(cg, mi);
    lemma_mult_le(cb, mi);
    lemma_mult_monotone(dr, da, a);
    lemma_mult_monotone(dg, da, a);
    lemma_mult_monotone(db, da, a);
    lemma_argb_channels(
        mi + mult(da, a),
        mult(cr, mi) + mult(dr, a),
        mult(cg, mi) + mult(dg, a),
        mult(cb, mi) + mult(db, a),
    );
    let u = mult(255 - da, mi);
    lemma_mult_le(255 - da, mi);
    lemma_mult_le(cr, u);
    lemma_mult_le(cg, u);
    lemma_mult_le(cb, u);
    lemma_argb_channels(da + u, mult(cr, u) + dr, mult(cg, u) + dg, mult(cb, u) + db);
    lemma_scale_keeps_premultiplied(d, a);
}

/// Blending at zero opacity, or erasing through a zero mask, leaves a pixel
/// unchanged; replacing at full opacity copies the source pixel
pub proof fn lemma_neutral_blends(d: u32, s: u32, c: u32)
    ensures
        blend_normal(d, s, 0) == d,
        erase_pixel(d, s, 0) == d,
        mask_normal(d, c, 0) == d,
        erase_mask(d, 0) == d,
        replace_pixel(s, 255) == s,
{
    lemma_argb_of_channels(d);
    lemma_argb_of_channels(s);
    lemma_argb_of_channels(c);
    let (da, dr, dg, db) = (ch_a(d), ch_r(d), ch_g(d), ch_b(d));
    let (sa, sr, sg, sb) = (ch_a(s), ch_r(s), ch_g(s), ch_b(s));
    lemma_mult_zero(sa as int);
    lemma_mult_zero(sr as int);
    lemma_mult_zero(sg as int);
    lemma_mult_zero(sb as int);
    lemma_mult_zero(ch_r(c) as int);
    lemma_mult_zero(ch_g(c) as int);
    lemma_mult_zero(ch_b(c) as int);
    lemma_mult_one(da);
    lemma_mult_one(dr);
    lemma_mult_one(dg);
    lemma_mult_one(db);
    lemma_mult_one(sa);
    lemma_mult_one(sr);
    lemma_mult_one(sg);
    lemma_mult_one(sb);
}

/// Drawing a color behind a fully transparent pixel through a full mask
/// gives the color itself, fully opaque
pub proof fn lemma_under_transparent(c: u32)
    ensures
        mask_under(0, c, 255) == argb(255, ch_r(c) as int, ch_g(c) as int, ch_b(c) as int),
        ch_a(mask_under(0, c, 255)) == 255,
        ch_r(mask_under(0, c, 255)) == ch_r(c),
        ch_g(mask_under(0, c, 255)) == ch_g(c),
        ch_b(mask_under(0, c, 255)) == ch_b(c),
{
    assert(ch_a(0) == 0 && ch_r(0) == 0 && ch_g(0) == 0 && ch_b(0) == 0);
    lemma_mult_one(255);
    lemma_mult_one(ch_r(c));
    lemma_mult_one(ch_g(c));
    lemma_mult_one(ch_b(c));
    lemma_argb_channels(255, ch_r(c) as int, ch_g(c) as int, ch_b(c) as int);
}

/// Drawing behind a premultiplied pixel through a mask works channel by
/// channel: the alpha of the result does not depend on the color, and each
/// color channel of the result depends on the same channel of the color
/// only; none of them falls below the pixel's own
pub proof fn lemma_under_channels(d: u32, c1: u32, c2: u32, m: u8)
    requires
        premultiplied(d),
    ensures
        ch_a(mask_under(d, c1, m as int)) == ch_a(mask_under(d, c2, m as int)),
        ch_r(c1) == ch_r(c2) ==> ch_r(mask_under(d, c1, m as int)) == ch_r(
            mask_under(d, c2, m as int),
        ),
        ch_g(c1) == ch_g(c2) ==> ch_g(mask_under(d, c1, m as int)) == ch_g(
            mask_under(d, c2, m as int),
        ),
        ch_b(c1) == ch_b(c2) ==> ch_b(mask_under(d, c1, m as int)) == ch_b(
            mask_under(d, c2, m as int),
        ),
        ch_a(d) <= ch_a(mask_under(d, c1, m as int)),
        ch_r(d) <= ch_r(mask_under(d, c1, m as int)),
        ch_g(d) <= ch_g(mask_under(d, c1, m as int)),
        ch_b(d) <= ch_b(mask_under(d, c1, m as int)),
{
    lemma_under_in_range(d, c1, m);
    lemma_under_in_range(d, c2, m);
}

/// The channels of a pixel drawn behind a premultiplied pixel
proof fn lemma_under_in_range(d: u32, c: u32, m: u8)
    requires
        premultiplied(d),
    ensures
        ({
            let u = mult(255 - ch_a(d), m as int);
            &&& ch_a(mask_under(d, c, m as int)) == ch_a(d) + u
            &&& ch_r(mask_under(d, c, m as int)) == mult(ch_r(c) as int, u) + ch_r(d)
            &&& ch_g(mask_under(d, c, m as int)) == mult(ch_g(c) as int, u) + ch_g(d)
            &&& ch_b(mask_under(d, c, m as int)) == mult(ch_b(c) as int, u) + ch_b(d)
            &&& 0 <= mult(ch_r(c) as int, u)
            &&& 0 <= mult(ch_g(c) as int, u)
            &&& 0 <= mult(ch_b(c) as int, u)
            &&& 0 <= u
        }),
{
    lemma_argb_of_channels(d);
    lemma_argb_of_channels(c);
    let (da, dr, dg, db) = (ch_a(d) as int, ch_r(d) as int, ch_g(d) as int, ch_b(d) as int);
    let (cr, cg, cb) = (ch_r(c) as int, ch_g(c) as int, ch_b(c) as int);
    let u = mult(255 - da, m as int);
    lemma_mult_le(255 - da, m as int);
    lemma_mult_le(cr, u);
    lemma_mult_le(cg, u);
    lemma_mult_le(cb, u);
    lemma_argb_channels(da + u, mult(cr, u) + dr, mult(cg, u) + dg, mult(cb, u) + db);
}

/// What the blends do at their extremes: an opaque source at full opacity
/// covers the pixel; drawing behind an opaque pixel, or at zero opacity,
/// changes nothing; an opaque source behind a transparent pixel, or a color
/// through a full mask, gives that source or color; erasing with an opaque
/// source at full opacity, or through a full mask, clears the pixel; and
/// replacing at zero opacity gives a transparent pixel
pub proof fn lemma_extreme_blends(d: u32, s: u32, c: u32, o: u8)
    requires
        premultiplied(d),
    ensures
        ch_a(s) == 255 ==> blend_normal(d, s, 255) == s,
        ch_a(s) == 255 ==> blend_under(0, s, 255) == s,
        ch_a(d) == 255 ==> blend_under(d, s, o as int) == d,
        ch_a(d) == 255 ==> mask_under(d, c, o as int) == d,
        blend_under(d, s, 0) == d,
        mask_under(d, c, 0) == d,
        mask_normal(d, c, 255) == argb(255, ch_r(c) as int, ch_g(c) as int, ch_b(c) as int),
        ch_a(s) == 255 ==> erase_pixel(d, s, 255) == 0,
        erase_mask(d, 255) == 0,
        replace_pixel(s, 0) == 0,
{
    lemma_argb_of_channels(d);
    lemma_argb_of_channels(s);
    lemma_argb_of_channels(c);
    let (da, dr, dg, db) = (ch_a(d), ch_r(d), ch_g(d), ch_b(d));
    let (sa, sr, sg, sb) = (ch_a(s), ch_r(s), ch_g(s), ch_b(s));
    lemma_mult_one(255);
    lemma_mult_one(sr);
    lemma_mult_one(sg);
    lemma_mult_one(sb);
    lemma_mult_one(ch_r(c));
    lemma_mult_one(ch_g(c));
    lemma_mult_one(ch_b(c));
    lemma_mult_zero(da as int);
    lemma_mult_zero(dr as int);
    lemma_mult_zero(dg as int);
    lemma_mult_zero(db as int);
    lemma_mult_zero(sa as int);
    lemma_mult_zero(sr as int);
    lemma_mult_zero(sg as int);
    lemma_mult_zero(sb as int);
    lemma_mult_zero(ch_r(c) as int);
    lemma_mult_zero(ch_g(c) as int);
    lemma_mult_zero(ch_b(c) as int);
    lemma_mult_zero(255 - da as int);
    lemma_mult_le(sa as int, o as int);
    lemma_mult_zero(mult(sa as int, o as int));
    lemma_mult_zero(o as int);
    assert(ch_a(0) == 0 && ch_r(0) == 0 && ch_g(0) == 0 && ch_b(0) == 0);
    assert(argb(0, 0, 0, 0) == 0);
}

} // verus!
