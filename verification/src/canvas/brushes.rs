//! Drawing the dabs of a brush stroke onto a layer: pixel brushes, and
//! classic brushes from their masks.
use crate::paint::blendmode::{blendmode_number, lemma_blendmode_number_injective, Blendmode};
use crate::paint::brushmask::BrushMask;
use crate::paint::editlayer::{dab_op, draw_brush_dab, tiles_premultiplied, under_dab};
use crate::paint::layer::Layer;
use crate::paint::rasterop::integer_mask_mode;
use crate::paint::UserID;
use crate::protocol::message::{DrawDabsClassicMessage, DrawDabsPixelMessage, PixelDab};
use vstd::prelude::*;

verus! {

/// The blending mode a stroke's mode number stands for; unknown numbers
/// stand for normal blending
pub open spec fn stroke_mode(v: u8) -> Blendmode {
    if exists|m: Blendmode| blendmode_number(m) == v {
        choose|m: Blendmode| blendmode_number(m) == v
    } else {
        Blendmode::Normal
    }
}

/// A stroke's mode number names the mode with that protocol number; the
/// numbers that name no mode (13 to 254) draw in normal mode
pub proof fn lemma_stroke_mode(m: Blendmode, v: u8)
    ensures
        stroke_mode(blendmode_number(m)) == m,
        13 <= v < 255 ==> stroke_mode(v) == Blendmode::Normal,
{
    let c = choose|k: Blendmode| blendmode_number(k) == blendmode_number(m);
    lemma_blendmode_number_injective(c, m);
    if 13 <= v < 255 {
        assert forall|k: Blendmode| blendmode_number(k) != v by {
            crate::paint::blendmode::lemma_blendmode_numbers(k);
        }
    }
}

/// Sum of the horizontal (`horizontal`) or vertical steps of the first `n` dabs
pub open spec fn dab_steps(dabs: Seq<PixelDab>, n: nat, horizontal: bool) -> int
    decreases n,
{
    if n == 0 || n > dabs.len() {
        0
    } else {
        dab_steps(dabs, (n - 1) as nat, horizontal) + if horizontal {
            dabs[n - 1].x as int
        } else {
            dabs[n - 1].y as int
        }
    }
}

/// The mask value of a pixel dab of the given size and opacity at `(mx, my)`
/// of its square: the opacity everywhere for a square dab, inside the
/// circle for a round one
pub open spec fn pixel_mask_value(size: int, opacity: u8, square: bool, mx: int, my: int) -> u8 {
    if square || BrushMask::in_round(size, mx, my) {
        opacity
    } else {
        0
    }
}

/// Pixel `(px, py)` of layer `l` after drawing the first `n` dabs of a
/// stroke starting at `(x, y)`; each dab is centered on its position (its
/// corner is half its size up and left of it)
pub open spec fn dabs_pixel(
    l: Layer,
    x: int,
    y: int,
    dabs: Seq<PixelDab>,
    color: u32,
    mode: Blendmode,
    square: bool,
    n: nat,
    px: int,
    py: int,
) -> u32
    decreases n,
{
    if n == 0 || n > dabs.len() {
        l.spec_pixel_at(px, py)
    } else {
        let prev = dabs_pixel(l, x, y, dabs, color, mode, square, (n - 1) as nat, px, py);
        let d = dabs[n - 1];
        let size = d.size as int;
        let cx = x + dab_steps(dabs, n, true) - size / 2;
        let cy = y + dab_steps(dabs, n, false) - size / 2;
        if under_dab(l, cx, cy, size, px, py) {
            dab_op(mode, prev, color, pixel_mask_value(size, d.opacity, square, px - cx, py - cy))
        } else {
            prev
        }
    }
}

/// The stroke's positions stay well inside the 32 bit range
pub open spec fn steps_fit(x: int, y: int, dabs: Seq<PixelDab>) -> bool {
    forall|n: nat|
        n <= dabs.len() ==> i32::MIN + 128 <= x + #[trigger] dab_steps(dabs, n, true) <= i32::MAX - 256
            && i32::MIN + 128 <= y + dab_steps(dabs, n, false) <= i32::MAX - 256
}

/// Draw each dab of a pixel brush stroke with the given color and mode (the
/// integer modes), in order. A dab's mask is made again only when its size
/// or opacity differs from the dab before it.
pub fn drawdabs_pixel_draw(
    layer: &mut Layer,
    user: UserID,
    color: u32,
    mode: Blendmode,
    dabs: &DrawDabsPixelMessage,
    square: bool,
)
    requires
        old(layer).wf(),
        integer_mask_mode(mode),
        mode is Behind ==> tiles_premultiplied(*old(layer)),
        steps_fit(dabs.x as int, dabs.y as int, dabs.dabs@),
    ensures
        final(layer).wf(),
        final(layer).width == old(layer).width && final(layer).height == old(layer).height,
        final(layer).id == old(layer).id && final(layer).opacity == old(layer).opacity,
        final(layer).blendmode == old(layer).blendmode && final(layer).hidden == old(layer).hidden,
        final(layer).sublayers@ == old(layer).sublayers@,
        tiles_premultiplied(*old(layer)) ==> tiles_premultiplied(*final(layer)),
        forall|px: int, py: int|
            0 <= px < 64 * old(layer).xtiles() && 0 <= py < 64 * old(layer).ytiles() ==> #[trigger] final(layer).spec_pixel_at(px, py)
                == dabs_pixel(
                *old(layer),
                dabs.x as int,
                dabs.y as int,
                dabs.dabs@,
                color,
                mode,
                square,
                dabs.dabs@.len(),
                px,
                py,
            ),
{
    let ghost start = *layer;
    let mut mask = BrushMask { diameter: 0, mask: Vec::new() };
    let mut last_x = dabs.x;
    let mut last_y = dabs.y;
    let mut last_size: u8 = 0;
    let mut last_opacity: u8 = 0;
    let mut i: usize = 0;
    while i < dabs.dabs.len()
        invariant
            start.wf(),
            layer.wf(),
            layer.width == start.width && layer.height == start.height,
            layer.id == start.id && layer.opacity == start.opacity,
            layer.blendmode == start.blendmode && layer.hidden == start.hidden,
            layer.sublayers@ == start.sublayers@,
            integer_mask_mode(mode),
            mode is Behind ==> tiles_premultiplied(start),
            tiles_premultiplied(start) ==> tiles_premultiplied(*layer),
            steps_fit(dabs.x as int, dabs.y as int, dabs.dabs@),
            i <= dabs.dabs@.len(),
            last_x == dabs.x + dab_steps(dabs.dabs@, i as nat, true),
            last_y == dabs.y + dab_steps(dabs.dabs@, i as nat, false),
            mask.wf(),
            mask.diameter == last_size,
            forall|k: int|
                0 <= k < last_size * last_size ==> #[trigger] mask.mask@[k] == pixel_mask_value(
                    last_size as int,
                    last_opacity,
                    square,
                    k % (last_size as int),
                    k / (last_size as int),
                ),
            forall|px: int, py: int|
                0 <= px < 64 * start.xtiles() && 0 <= py < 64 * start.ytiles() ==> #[trigger] layer.spec_pixel_at(px, py)
                    == dabs_pixel(
                    start,
                    dabs.x as int,
                    dabs.y as int,
                    dabs.dabs@,
                    color,
                    mode,
                    square,
                    i as nat,
                    px,
                    py,
                ),
        decreases dabs.dabs@.len() - i,
    {
        let dab = &dabs.dabs[i];
        proof {
            assert(dab_steps(dabs.dabs@, (i + 1) as nat, true) == dab_steps(dabs.dabs@, i as nat, true) + dab.x);
            assert(dab_steps(dabs.dabs@, (i + 1) as nat, false) == dab_steps(dabs.dabs@, i as nat, false) + dab.y);
            assert(i32::MIN + 128 <= dabs.x + dab_steps(dabs.dabs@, (i + 1) as nat, true) <= i32::MAX - 256);
            assert(i32::MIN + 128 <= dabs.y + dab_steps(dabs.dabs@, (i + 1) as nat, false) <= i32::MAX - 256);
        }
        let x = last_x + dab.x as i32;
        let y = last_y + dab.y as i32;
        if dab.size != last_size || dab.opacity != last_opacity {
            last_size = dab.size;
            last_opacity = dab.opacity;
            proof {
                assert(dab.size as u32 * dab.size as u32 <= 255 * 255) by (nonlinear_arith)
                    requires
                        dab.size <= 255,
                ;
            }
            mask = if square {
                BrushMask::new_square_pixel(dab.size as u32, dab.opacity)
            } else {
                BrushMask::new_round_pixel(dab.size as u32, dab.opacity)
            };
        }
        let offset = dab.size as i32 / 2;
        let ghost before = *layer;
        draw_brush_dab(layer, user, x - offset, y - offset, &mask, color, mode);
        proof {
            let n = (i + 1) as nat;
            let cx = x - offset;
            let cy = y - offset;
            let d = last_size as int;
            assert forall|px: int, py: int|
                0 <= px < 64 * start.xtiles() && 0 <= py < 64 * start.ytiles() implies #[trigger] layer.spec_pixel_at(px, py)
                    == dabs_pixel(
                    start,
                    dabs.x as int,
                    dabs.y as int,
                    dabs.dabs@,
                    color,
                    mode,
                    square,
                    n,
                    px,
                    py,
                ) by {
                assert(before.spec_pixel_at(px, py) == dabs_pixel(
                    start,
                    dabs.x as int,
                    dabs.y as int,
                    dabs.dabs@,
                    color,
                    mode,
                    square,
                    i as nat,
                    px,
                    py,
                ));
                if under_dab(start, cx as int, cy as int, d, px, py) {
                    let k = (py - cy) * d + (px - cx);
                    vstd::arithmetic::div_mod::lemma_fundamental_div_mod_converse(k, d, py - cy, px - cx);
                    assert(0 <= k < d * d) by (nonlinear_arith)
                        requires
                            k == (py - cy) * d + (px - cx),
                            0 <= py - cy < d,
                            0 <= px - cx < d,
                    ;
                    assert(mask.mask@[k] == pixel_mask_value(d, last_opacity, square, px - cx, py - cy));
                }
            }
        }
        last_x = x;
        last_y = y;
        i += 1;
    }
}

/// What `drawdabs_pixel` does to a layer
pub open spec fn drawdabs_pixel_result(old_l: Layer, new_l: Layer, user: UserID, dabs: DrawDabsPixelMessage, square: bool) -> bool {
    &&& new_l.wf()
    &&& new_l.width == old_l.width && new_l.height == old_l.height
    &&& dabs.color / 0x100_0000 == 0 ==> {
                &&& new_l.sublayers@ == old_l.sublayers@
                &&& forall|px: int, py: int|
                    0 <= px < 64 * old_l.xtiles() && 0 <= py < 64 * old_l.ytiles() ==> #[trigger] new_l.spec_pixel_at(px, py)
                        == dabs_pixel(
                        old_l,
                        dabs.x as int,
                        dabs.y as int,
                        dabs.dabs@,
                        (dabs.color % 0x100_0000 + 0xff00_0000) as u32,
                        stroke_mode(dabs.mode),
                        square,
                        dabs.dabs@.len(),
                        px,
                        py,
                    )
            }
    &&& dabs.color / 0x100_0000 > 0 ==> {
                &&& new_l.tiles@ == old_l.tiles@
                &&& exists|i: int, base: Layer|
                    #![trigger new_l.sublayers@[i], base.width]
                    {
                        &&& super::super::paint::layerstack::first_with_id(
                            new_l.sublayers@,
                            user as i32,
                            i,
                        )
                        &&& i <= old_l.sublayers@.len()
                        &&& i < old_l.sublayers@.len() ==> base.tiles@ == old_l.sublayers@[i].tiles@
                        &&& i == old_l.sublayers@.len() ==> forall|t: int|
                            0 <= t < base.tiles@.len() ==> #[trigger] base.tiles@[t]
                                == crate::paint::tile::Tile::Blank
                        &&& base.width == old_l.width && base.height == old_l.height
                        &&& new_l.sublayers@[i].opacity == dabs.color / 0x100_0000
                        &&& new_l.sublayers@[i].blendmode == stroke_mode(dabs.mode)
                        &&& forall|px: int, py: int|
                            0 <= px < 64 * old_l.xtiles() && 0 <= py < 64 * old_l.ytiles() ==> #[trigger] new_l.sublayers@[i].spec_pixel_at(px, py)
                                == dabs_pixel(
                                base,
                                dabs.x as int,
                                dabs.y as int,
                                dabs.dabs@,
                                (dabs.color % 0x100_0000 + 0xff00_0000) as u32,
                                Blendmode::Normal,
                                square,
                                dabs.dabs@.len(),
                                px,
                                py,
                            )
                    }
            }
}

/// Draw a pixel brush stroke onto a layer. A color with some alpha draws
/// indirectly: onto the sublayer of the drawing user (created if missing),
/// which takes the color's alpha as its opacity and the stroke's mode as its
/// blending mode, and is drawn on opaquely in normal mode. A color with no
/// alpha draws onto the layer itself with the stroke's mode. Unknown mode
/// numbers draw in normal mode.
pub fn drawdabs_pixel(layer: &mut Layer, user: UserID, dabs: &DrawDabsPixelMessage, square: bool)
    requires
        old(layer).wf(),
        steps_fit(dabs.x as int, dabs.y as int, dabs.dabs@),
        dabs.color / 0x100_0000 > 0 ==> user != 0,
        dabs.color / 0x100_0000 == 0 ==> integer_mask_mode(stroke_mode(dabs.mode)),
        dabs.color / 0x100_0000 == 0 && stroke_mode(dabs.mode) is Behind ==> tiles_premultiplied(
            *old(layer),
        ),
    ensures
        drawdabs_pixel_result(*old(layer), *final(layer), user, *dabs, square),
{
    let mode = match Blendmode::try_from_u8(dabs.mode) {
        Some(m) => m,
        None => Blendmode::Normal,
    };
    proof {
        if exists|m: Blendmode| blendmode_number(m) == dabs.mode {
            let c = choose|m: Blendmode| blendmode_number(m) == dabs.mode;
            lemma_blendmode_number_injective(c, mode);
            if !(13 <= dabs.mode < 255) {
                assert(blendmode_number(mode) == dabs.mode);
            } else {
                assert(blendmode_number(c) == dabs.mode);
            }
        }
        assert(mode == stroke_mode(dabs.mode));
    }
    let alpha = dabs.color / 0x100_0000;
    let opaque = dabs.color % 0x100_0000 + 0xff00_0000;
    if alpha > 0 {
        let i = layer.sublayer_index(user as i32);
        let ghost mid = *layer;
        let mut sub = layer.sublayers.remove(i);
        let ghost base = sub;
        proof {
            assert(sub == mid.sublayers@[i as int]);
            assert(sub.wf());
        }
        sub.opacity = alpha as u8;
        sub.blendmode = mode;
        proof {
            assert(sub.tiles_ok());
            assert(sub.sublayers@ == base.sublayers@);
        }
        let ghost drawn_from = sub;
        drawdabs_pixel_draw(&mut sub, user, opaque, Blendmode::Normal, dabs, square);
        layer.sublayers.insert(i, sub);
        proof {
            assert(layer.sublayers@ =~= mid.sublayers@.update(i as int, sub));
            assert forall|k: int| 0 <= k < layer.sublayers@.len() implies {
                &&& (#[trigger] layer.sublayers@[k]).wf()
                &&& layer.sublayers@[k].width == layer.width
                &&& layer.sublayers@[k].height == layer.height
            } by {
                if k != i {
                    assert(layer.sublayers@[k] == mid.sublayers@[k]);
                }
            }
            let ii = i as int;
            assert(super::super::paint::layerstack::first_with_id(layer.sublayers@, user as i32, ii)) by {
                assert forall|k: int| 0 <= k < ii implies (#[trigger] layer.sublayers@[k]).id != user as i32 by {
                    assert(layer.sublayers@[k] == mid.sublayers@[k]);
                }
            }
            if ii == old(layer).sublayers@.len() {
                assert forall|t: int| 0 <= t < base.tiles@.len() implies #[trigger] base.tiles@[t]
                    == crate::paint::tile::Tile::Blank by {
                    assert(mid.sublayers@[ii].tiles@[t] == crate::paint::tile::Tile::Blank);
                }
            }
            assert(layer.sublayers@[ii] == sub);
            assert(base.xtiles() == old(layer).xtiles() && base.ytiles() == old(layer).ytiles());
            if ii == old(layer).sublayers@.len() {
                assert forall|t: int| 0 <= t < drawn_from.tiles@.len() implies #[trigger] drawn_from.tiles@[t]
                    == crate::paint::tile::Tile::Blank by {
                    assert(base.tiles@[t] == crate::paint::tile::Tile::Blank);
                }
            } else {
                assert(mid.sublayers@[ii] == old(layer).sublayers@[ii]);
            }
            assert(layer.sublayers@[ii].opacity == dabs.color / 0x100_0000);
            assert(drawn_from.width == old(layer).width);

        }
    } else {
        drawdabs_pixel_draw(layer, user, opaque, mode, dabs, square);
    }
}

/// A brush mask placed on a layer with its corner at `(x, y)`. The masks of
/// a classic brush stroke are shaped in floating point from the stroke's
/// dabs; the library draws them.
pub struct PlacedMask {
    pub x: i32,
    pub y: i32,
    pub mask: BrushMask,
}

/// Every mask is well formed and reaches no further than the 32 bit range
pub open spec fn masks_fit(masks: Seq<PlacedMask>) -> bool {
    forall|i: int|
        0 <= i < masks.len() ==> {
            &&& (#[trigger] masks[i]).mask.wf()
            &&& masks[i].x + masks[i].mask.diameter <= i32::MAX
            &&& masks[i].y + masks[i].mask.diameter <= i32::MAX
        }
}

/// Pixel `(px, py)` of layer `l` after drawing the first `n` masks with the
/// given color and mode, in order
pub open spec fn masks_pixel(
    l: Layer,
    masks: Seq<PlacedMask>,
    color: u32,
    mode: Blendmode,
    n: nat,
    px: int,
    py: int,
) -> u32
    decreases n,
{
    if n == 0 || n > masks.len() {
        l.spec_pixel_at(px, py)
    } else {
        let prev = masks_pixel(l, masks, color, mode, (n - 1) as nat, px, py);
        let m = masks[n - 1];
        let d = m.mask.diameter as int;
        if under_dab(l, m.x as int, m.y as int, d, px, py) {
            dab_op(mode, prev, color, m.mask.mask@[(py - m.y) * d + (px - m.x)])
        } else {
            prev
        }
    }
}

/// Draw the masks of a classic brush stroke with the given color and mode
/// (the integer modes), in order
pub fn drawdabs_classic_draw(
    layer: &mut Layer,
    user: UserID,
    color: u32,
    mode: Blendmode,
    masks: &Vec<PlacedMask>,
)
    requires
        old(layer).wf(),
        integer_mask_mode(mode),
        mode is Behind ==> tiles_premultiplied(*old(layer)),
        masks_fit(masks@),
    ensures
        final(layer).wf(),
        final(layer).width == old(layer).width && final(layer).height == old(layer).height,
        final(layer).id == old(layer).id && final(layer).opacity == old(layer).opacity,
        final(layer).blendmode == old(layer).blendmode && final(layer).hidden == old(layer).hidden,
        final(layer).sublayers@ == old(layer).sublayers@,
        tiles_premultiplied(*old(layer)) ==> tiles_premultiplied(*final(layer)),
        forall|px: int, py: int|
            0 <= px < 64 * old(layer).xtiles() && 0 <= py < 64 * old(layer).ytiles() ==> #[trigger] final(layer).spec_pixel_at(px, py)
                == masks_pixel(*old(layer), masks@, color, mode, masks@.len(), px, py),
{
    let ghost start = *layer;
    let mut i: usize = 0;
    while i < masks.len()
        invariant
            start.wf(),
            layer.wf(),
            layer.width == start.width && layer.height == start.height,
            layer.id == start.id && layer.opacity == start.opacity,
            layer.blendmode == start.blendmode && layer.hidden == start.hidden,
            layer.sublayers@ == start.sublayers@,
            integer_mask_mode(mode),
            mode is Behind ==> tiles_premultiplied(start),
            tiles_premultiplied(start) ==> tiles_premultiplied(*layer),
            masks_fit(masks@),
            i <= masks@.len(),
            forall|px: int, py: int|
                0 <= px < 64 * start.xtiles() && 0 <= py < 64 * start.ytiles() ==> #[trigger] layer.spec_pixel_at(px, py)
                    == masks_pixel(start, masks@, color, mode, i as nat, px, py),
        decreases masks@.len() - i,
    {
        let m = &masks[i];
        proof {
            assert(m.mask.wf());
        }
        let ghost before = *layer;
        draw_brush_dab(layer, user, m.x, m.y, &m.mask, color, mode);
        proof {
            assert forall|px: int, py: int|
                0 <= px < 64 * start.xtiles() && 0 <= py < 64 * start.ytiles() implies #[trigger] layer.spec_pixel_at(px, py)
                    == masks_pixel(start, masks@, color, mode, (i + 1) as nat, px, py) by {
                assert(before.spec_pixel_at(px, py) == masks_pixel(start, masks@, color, mode, i as nat, px, py));
            }
        }
        i += 1;
    }
}

/// What `drawdabs_classic` does to a layer, drawing `masks` with the stroke's
/// `color` and `mode` number
pub open spec fn drawdabs_classic_result(
    old_l: Layer,
    new_l: Layer,
    user: UserID,
    color: u32,
    mode: u8,
    masks: Seq<PlacedMask>,
) -> bool {
    &&& new_l.wf()
    &&& new_l.width == old_l.width && new_l.height == old_l.height
    &&& color / 0x100_0000 == 0 ==> {
        &&& new_l.sublayers@ == old_l.sublayers@
        &&& forall|px: int, py: int|
            0 <= px < 64 * old_l.xtiles() && 0 <= py < 64 * old_l.ytiles() ==> #[trigger] new_l.spec_pixel_at(px, py)
                == masks_pixel(
                old_l,
                masks,
                (color % 0x100_0000 + 0xff00_0000) as u32,
                stroke_mode(mode),
                masks.len(),
                px,
                py,
            )
    }
    &&& color / 0x100_0000 > 0 ==> {
        &&& new_l.tiles@ == old_l.tiles@
        &&& exists|i: int, base: Layer|
            #![trigger new_l.sublayers@[i], base.width]
            {
                &&& super::super::paint::layerstack::first_with_id(new_l.sublayers@, user as i32, i)
                &&& i <= old_l.sublayers@.len()
                &&& i < old_l.sublayers@.len() ==> base.tiles@ == old_l.sublayers@[i].tiles@
                &&& i == old_l.sublayers@.len() ==> forall|t: int|
                    0 <= t < base.tiles@.len() ==> #[trigger] base.tiles@[t]
                        == crate::paint::tile::Tile::Blank
                &&& base.width == old_l.width && base.height == old_l.height
                &&& new_l.sublayers@[i].opacity == color / 0x100_0000
                &&& new_l.sublayers@[i].blendmode == stroke_mode(mode)
                &&& forall|px: int, py: int|
                    0 <= px < 64 * old_l.xtiles() && 0 <= py < 64 * old_l.ytiles() ==> #[trigger] new_l.sublayers@[i].spec_pixel_at(px, py)
                        == masks_pixel(
                        base,
                        masks,
                        (color % 0x100_0000 + 0xff00_0000) as u32,
                        Blendmode::Normal,
                        masks.len(),
                        px,
                        py,
                    )
            }
    }
}

/// Draw a classic brush stroke onto a layer, given the masks shaped from
/// its dabs. A color with some alpha draws indirectly: onto the sublayer of
/// the drawing user (created if missing), which takes the color's alpha as
/// its opacity and the stroke's mode as its blending mode, and is drawn on
/// opaquely in normal mode. A color with no alpha draws onto the layer
/// itself with the stroke's mode. Unknown mode numbers draw in normal mode.
pub fn drawdabs_classic(
    layer: &mut Layer,
    user: UserID,
    dabs: &DrawDabsClassicMessage,
    masks: &Vec<PlacedMask>,
)
    requires
        old(layer).wf(),
        masks_fit(masks@),
        dabs.color / 0x100_0000 > 0 ==> user != 0,
        dabs.color / 0x100_0000 == 0 ==> integer_mask_mode(stroke_mode(dabs.mode)),
        dabs.color / 0x100_0000 == 0 && stroke_mode(dabs.mode) is Behind ==> tiles_premultiplied(
            *old(layer),
        ),
    ensures
        drawdabs_classic_result(*old(layer), *final(layer), user, dabs.color, dabs.mode, masks@),
{
    let mode = match Blendmode::try_from_u8(dabs.mode) {
        Some(m) => m,
        None => Blendmode::Normal,
    };
    proof {
        if exists|m: Blendmode| blendmode_number(m) == dabs.mode {
            let c = choose|m: Blendmode| blendmode_number(m) == dabs.mode;
            lemma_blendmode_number_injective(c, mode);
            if !(13 <= dabs.mode < 255) {
                assert(blendmode_number(mode) == dabs.mode);
            } else {
                assert(blendmode_number(c) == dabs.mode);
            }
        }
        assert(mode == stroke_mode(dabs.mode));
    }
    let alpha = dabs.color / 0x100_0000;
    let opaque = dabs.color % 0x100_0000 + 0xff00_0000;
    if alpha > 0 {
        let i = layer.sublayer_index(user as i32);
        let ghost mid = *layer;
        let mut sub = layer.sublayers.remove(i);
        let ghost base = sub;
        proof {
            assert(sub == mid.sublayers@[i as int]);
            assert(sub.wf());
        }
        sub.opacity = alpha as u8;
        sub.blendmode = mode;
        proof {
            assert(sub.tiles_ok());
            assert(sub.sublayers@ == base.sublayers@);
        }
        let ghost drawn_from = sub;
        drawdabs_classic_draw(&mut sub, user, opaque, Blendmode::Normal, masks);
        layer.sublayers.insert(i, sub);
        proof {
            assert(layer.sublayers@ =~= mid.sublayers@.update(i as int, sub));
            assert forall|k: int| 0 <= k < layer.sublayers@.len() implies {
                &&& (#[trigger] layer.sublayers@[k]).wf()
                &&& layer.sublayers@[k].width == layer.width
                &&& layer.sublayers@[k].height == layer.height
            } by {
                if k != i {
                    assert(layer.sublayers@[k] == mid.sublayers@[k]);
                }
            }
            let ii = i as int;
            assert(super::super::paint::layerstack::first_with_id(layer.sublayers@, user as i32, ii)) by {
                assert forall|k: int| 0 <= k < ii implies (#[trigger] layer.sublayers@[k]).id != user as i32 by {
                    assert(layer.sublayers@[k] == mid.sublayers@[k]);
                }
            }
            if ii == old(layer).sublayers@.len() {
                assert forall|t: int| 0 <= t < base.tiles@.len() implies #[trigger] base.tiles@[t]
                    == crate::paint::tile::Tile::Blank by {
                    assert(mid.sublayers@[ii].tiles@[t] == crate::paint::tile::Tile::Blank);
                }
            }
            assert(layer.sublayers@[ii] == sub);
            assert(base.xtiles() == old(layer).xtiles() && base.ytiles() == old(layer).ytiles());
            if ii == old(layer).sublayers@.len() {
                assert forall|t: int| 0 <= t < drawn_from.tiles@.len() implies #[trigger] drawn_from.tiles@[t]
                    == crate::paint::tile::Tile::Blank by {
                    assert(base.tiles@[t] == crate::paint::tile::Tile::Blank);
                }
            } else {
                assert(mid.sublayers@[ii] == old(layer).sublayers@[ii]);
            }
            assert(layer.sublayers@[ii].opacity == dabs.color / 0x100_0000);
            assert(drawn_from.width == old(layer).width);
        }
    } else {
        drawdabs_classic_draw(layer, user, opaque, mode, masks);
    }
}

} // verus!
