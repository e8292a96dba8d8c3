//! Editing layers: putting tiles, drawing brush dabs and images, and filling
//! rectangles.
use super::blendmode::Blendmode;
use super::brushmask::BrushMask;
use super::layer::{layer_visible, tiles_for, with_sublayers, Layer};
use super::rasterop::{
    all_premultiplied, blend_normal, blend_under, ch_a, erase_mask, erase_pixel,
    integer_mask_mode, integer_pixel_mode, lemma_mult_zero, mask_blend, mask_normal, mask_under, pixel_blend,
    premultiplied, replace_pixel,
};
use super::rect::Rectangle;
use super::tile::{blend_op, Tile, TILE_LENGTH};
use super::{LayerID, UserID};
use vstd::prelude::*;

verus! {

/// The tiles after `put_tile`: from index `start`, `repeat + 1` tiles (as
/// many as there are) replaced by `tile`; nothing when `start` is past the end
pub open spec fn put_tiles(tiles: Seq<Tile>, start: int, repeat: int, tile: Tile) -> Seq<Tile> {
    if start >= tiles.len() {
        tiles
    } else {
        let end = if tiles.len() - 1 < start + repeat {
            tiles.len() - 1
        } else {
            start + repeat
        };
        Seq::new(tiles.len(), |k: int| if start <= k <= end { tile } else { tiles[k] })
    }
}

/// The tiles that `put_tile` replaces among `n`, as the indices of the first
/// and the last: none when `start` lies past the end
pub open spec fn put_span(n: int, start: int, repeat: int) -> Option<(int, int)> {
    if start >= n {
        None
    } else if n - 1 < start + repeat {
        Some((start, n - 1))
    } else {
        Some((start, start + repeat))
    }
}

/// A span of tile indices as integers
pub open spec fn span_view(span: Option<(usize, usize)>) -> Option<(int, int)> {
    match span {
        Some((a, b)) => Some((a as int, b as int)),
        None => None,
    }
}

/// What `put_tile` does to a layer
pub open spec fn put_tile_result(old_l: Layer, new_l: Layer, sublayer: LayerID, col: u32, row: u32, repeat: u32, tile: Tile) -> bool {
    &&& new_l.wf()
    &&& new_l.width == old_l.width && new_l.height == old_l.height
    &&& new_l.id == old_l.id && new_l.opacity == old_l.opacity
    &&& new_l.blendmode == old_l.blendmode && new_l.hidden == old_l.hidden
    &&& sublayer == 0 ==> {
                &&& new_l.tiles@ == put_tiles(
                    old_l.tiles@,
                    row * old_l.xtiles() + col,
                    repeat as int,
                    tile,
                )
                &&& new_l.sublayers@ == old_l.sublayers@
            }
    &&& sublayer != 0 ==> {
                &&& new_l.tiles@ == old_l.tiles@
                &&& exists|i: int|
                    {
                        &&& 0 <= i < new_l.sublayers@.len()
                        &&& (#[trigger] new_l.sublayers@[i]).id == sublayer
                        &&& forall|k: int| 0 <= k < i ==> (#[trigger] old_l.sublayers@[k]).id != sublayer
                        &&& new_l.sublayers@[i].tiles@ == put_tiles(
                            if i < old_l.sublayers@.len() {
                                old_l.sublayers@[i].tiles@
                            } else {
                                Seq::new(old_l.tiles@.len(), |k: int| Tile::Blank)
                            },
                            row * old_l.xtiles() + col,
                            repeat as int,
                            tile,
                        )
                        &&& i < old_l.sublayers@.len() ==> {
                            &&& old_l.sublayers@[i].id == sublayer
                            &&& new_l.sublayers@ == old_l.sublayers@.update(
                                i,
                                new_l.sublayers@[i],
                            )
                        }
                        &&& i == old_l.sublayers@.len() ==> new_l.sublayers@.len() == i + 1
                            && new_l.sublayers@.subrange(0, i) == old_l.sublayers@
                    }
            }
}

/// Replace the tile in column `col`, row `row`, and the `repeat` tiles after
/// it (in row-major order, as far as the layer goes), of the layer or of its
/// sublayer `sublayer` (created if missing) when that is not 0. Returns the
/// area changed: the indices of the first and the last tile replaced, or
/// nothing when the first lies past the layer's end.
pub fn put_tile(
    layer: &mut Layer,
    sublayer: LayerID,
    col: u32,
    row: u32,
    repeat: u32,
    tile: &Tile,
) -> (aoe: Option<(usize, usize)>)
    requires
        old(layer).wf(),
        tile.wf(),
        row * old(layer).xtiles() + col <= u32::MAX,
    ensures
        put_tile_result(*old(layer), *final(layer), sublayer, col, row, repeat, *tile),
        span_view(aoe) == put_span(
            old(layer).tiles@.len() as int,
            row * old(layer).xtiles() + col,
            repeat as int,
        ),
{
    if sublayer != 0 {
        let i = layer.sublayer_index(sublayer);
        let ghost mid = *layer;
        let mut sub = layer.sublayers.remove(i);
        let ghost before = sub;
        proof {
            assert(before == mid.sublayers@[i as int]);
        }
        let aoe = put_own_tiles(&mut sub, col, row, repeat, tile);
        layer.sublayers.insert(i, sub);
        proof {
            assert(layer.sublayers@ =~= mid.sublayers@.update(i as int, sub));
            assert forall|k: int| 0 <= k < layer.sublayers@.len() implies {
                &&& (#[trigger] layer.sublayers@[k]).wf()
                &&& layer.sublayers@[k].width == layer.width
                &&& layer.sublayers@[k].height == layer.height
            } by {
                if k != i {
                    assert(layer.sublayers@[k] == mid.sublayers@[k]);
                }
            }
            assert(layer.sublayers@[i as int] == sub);
            if (i as int) < old(layer).sublayers@.len() {
                assert(layer.sublayers@ =~= old(layer).sublayers@.update(i as int, sub));
            } else {
                assert(before.tiles@.len() == old(layer).tiles@.len());
                assert forall|k: int| 0 <= k < before.tiles@.len() implies before.tiles@[k]
                    == Tile::Blank by {
                    assert(mid.sublayers@[i as int].tiles@[k] == Tile::Blank);
                }
                assert(before.tiles@ =~= Seq::new(old(layer).tiles@.len(), |k: int| Tile::Blank));
                assert(layer.sublayers@.subrange(0, i as int) =~= mid.sublayers@.subrange(
                    0,
                    i as int,
                ));
                assert(layer.sublayers@.subrange(0, i as int) =~= old(layer).sublayers@);
            }
        }
        return aoe;
    }
    put_own_tiles(layer, col, row, repeat, tile)
}

/// `put_tile` on the layer's own tiles
fn put_own_tiles(layer: &mut Layer, col: u32, row: u32, repeat: u32, tile: &Tile) -> (aoe: Option<
    (usize, usize),
>)
    requires
        old(layer).wf(),
        tile.wf(),
        row * old(layer).xtiles() + col <= u32::MAX,
    ensures
        final(layer).wf(),
        final(layer).width == old(layer).width && final(layer).height == old(layer).height,
        final(layer).id == old(layer).id && final(layer).opacity == old(layer).opacity,
        final(layer).blendmode == old(layer).blendmode && final(layer).hidden == old(layer).hidden,
        final(layer).tiles@ == put_tiles(
            old(layer).tiles@,
            row * old(layer).xtiles() + col,
            repeat as int,
            *tile,
        ),
        final(layer).sublayers@ == old(layer).sublayers@,
        span_view(aoe) == put_span(
            old(layer).tiles@.len() as int,
            row * old(layer).xtiles() + col,
            repeat as int,
        ),
{
    let xtiles = Tile::div_up(layer.width);
    let n = layer.tiles.len();
    let start: u64 = row as u64 * xtiles as u64 + col as u64;
    if start >= n as u64 {
        return None;
    }
    let last = (n - 1) as u64;
    let end: u64 = if last < start + repeat as u64 {
        last
    } else {
        start + repeat as u64
    };
    let mut k: usize = start as usize;
    while k <= end as usize
        invariant
            start <= k <= end + 1,
            end < n,
            n == layer.tiles@.len(),
            layer.width == old(layer).width && layer.height == old(layer).height,
            layer.sublayers@ == old(layer).sublayers@,
            layer.id == old(layer).id && layer.opacity == old(layer).opacity,
            layer.blendmode == old(layer).blendmode && layer.hidden == old(layer).hidden,
            tile.wf(),
            layer.tiles_ok(),
            forall|j: int| 0 <= j < n ==> #[trigger] layer.tiles@[j] == if start <= j < k {
                *tile
            } else {
                old(layer).tiles@[j]
            },
        decreases end + 1 - k,
    {
        layer.tiles.set(k, tile.share());
        k += 1;
    }
    proof {
        assert(layer.tiles@ =~= put_tiles(old(layer).tiles@, start as int, repeat as int, *tile));
    }
    Some((start as usize, end as usize))
}

/// A brush mask value applied to pixel `o` with the given color and mode
pub open spec fn dab_op(mode: Blendmode, o: u32, c: u32, m: u8) -> u32 {
    match mode {
        Blendmode::Normal => mask_normal(o, c, m as int),
        Blendmode::Erase => erase_mask(o, m as int),
        _ => mask_under(o, c, m as int),
    }
}

/// Whether pixel `(px, py)` lies under a `d` by `d` dab at `(x, y)` and
/// inside the layer
pub open spec fn under_dab(l: Layer, x: int, y: int, d: int, px: int, py: int) -> bool {
    &&& x <= px < x + d
    &&& y <= py < y + d
    &&& 0 <= px < l.width
    &&& 0 <= py < l.height
}

/// Pixel `(px, py)` of layer `l` after drawing the dab: blended under the
/// dab, unchanged elsewhere
pub open spec fn dabbed_pixel(
    l: Layer,
    x: int,
    y: int,
    mask: BrushMask,
    color: u32,
    mode: Blendmode,
    px: int,
    py: int,
) -> u32 {
    let d = mask.diameter as int;
    if under_dab(l, x, y, d, px, py) {
        dab_op(mode, l.spec_pixel_at(px, py), color, mask.mask@[(py - y) * d + (px - x)])
    } else {
        l.spec_pixel_at(px, py)
    }
}

/// Pixel `j` of tile `t` of layer `l` after drawing the dab
pub open spec fn dabbed_tile_pixel(
    l: Layer,
    x: int,
    y: int,
    mask: BrushMask,
    color: u32,
    mode: Blendmode,
    t: int,
    j: int,
) -> u32 {
    let n = l.xtiles();
    let px = (t % (n as int)) * 64 + j % 64;
    let py = (t / (n as int)) * 64 + j / 64;
    let d = mask.diameter as int;
    let o = l.spec_tiles()[t].spec_pixel(j);
    if under_dab(l, x, y, d, px, py) {
        dab_op(mode, o, color, mask.mask@[(py - y) * d + (px - x)])
    } else {
        o
    }
}

/// Every pixel of every tile is premultiplied
pub open spec fn tiles_premultiplied(l: Layer) -> bool {
    forall|t: int, j: int|
        0 <= t < l.spec_tiles().len() && 0 <= j < TILE_LENGTH ==> premultiplied(
            #[trigger] l.spec_tiles()[t].spec_pixel(j),
        )
}

/// Tiles rewritten tile by tile hold the rewritten pixels
proof fn lemma_dab_pixels(
    old: Layer,
    new: Layer,
    x: int,
    y: int,
    mask: BrushMask,
    color: u32,
    mode: Blendmode,
)
    requires
        old.tiles_ok(),
        new.width == old.width && new.height == old.height,
        new.tiles@.len() == old.tiles@.len(),
        forall|t: int, j: int|
            0 <= t < new.tiles@.len() && 0 <= j < TILE_LENGTH ==> #[trigger] new.tiles@[t].spec_pixel(j)
                == dabbed_tile_pixel(old, x, y, mask, color, mode, t, j),
    ensures
        forall|px: int, py: int|
            0 <= px < 64 * old.xtiles() && 0 <= py < 64 * old.ytiles() ==> #[trigger] new.spec_pixel_at(px, py)
                == dabbed_pixel(old, x, y, mask, color, mode, px, py),
{
    assert forall|px: int, py: int| 0 <= px < 64 * old.xtiles() && 0 <= py < 64 * old.ytiles() implies #[trigger] new.spec_pixel_at(px, py) == dabbed_pixel(old, x, y, mask, color, mode, px, py) by {
        let n = old.xtiles();
        let m = old.ytiles();
        super::layer::lemma_pixel_place(px, py, n);
        assert(py / 64 < m) by (nonlinear_arith)
            requires
                0 <= py < 64 * m,
        ;
        assert((py / 64) * n + px / 64 < n * m) by (nonlinear_arith)
            requires
                0 <= px / 64 < n,
                0 <= py / 64 < m,
        ;
    }
}

/// Draw a brush mask onto the layer with its top left corner at `(x, y)`,
/// blending `color` in the given mode (the integer modes: normal, erase,
/// behind). Returns the area that was drawn on, the dab cropped to the
/// layer, or `None` when the dab lies outside the layer. Pixels under the
/// dab are blended with the mask value over them; all others keep their
/// values.
pub fn draw_brush_dab(
    layer: &mut Layer,
    user: UserID,
    x: i32,
    y: i32,
    mask: &BrushMask,
    color: u32,
    mode: Blendmode,
) -> (aoe: Option<Rectangle>)
    requires
        old(layer).wf(),
        mask.wf(),
        integer_mask_mode(mode),
        mode is Behind ==> tiles_premultiplied(*old(layer)),
        x + mask.diameter <= i32::MAX,
        y + mask.diameter <= i32::MAX,
    ensures
        final(layer).wf(),
        final(layer).width == old(layer).width && final(layer).height == old(layer).height,
        final(layer).id == old(layer).id && final(layer).opacity == old(layer).opacity,
        final(layer).blendmode == old(layer).blendmode && final(layer).hidden == old(layer).hidden,
        final(layer).sublayers@ == old(layer).sublayers@,
        forall|px: int, py: int|
            0 <= px < 64 * old(layer).xtiles() && 0 <= py < 64 * old(layer).ytiles() ==> #[trigger] final(layer).spec_pixel_at(px, py)
                == dabbed_pixel(*old(layer), x as int, y as int, *mask, color, mode, px, py),
        tiles_premultiplied(*old(layer)) ==> tiles_premultiplied(*final(layer)),
        ({
            let x0 = if x < 0 { 0 } else { x as int };
            let y0 = if y < 0 { 0 } else { y as int };
            let x1 = if x + mask.diameter < old(layer).width { x + mask.diameter } else { old(layer).width as int };
            let y1 = if y + mask.diameter < old(layer).height { y + mask.diameter } else { old(layer).height as int };
            if x0 < x1 && y0 < y1 {
                aoe == Some(Rectangle { x: x0 as i32, y: y0 as i32, w: (x1 - x0) as i32, h: (y1 - y0) as i32 })
            } else {
                aoe is None
            }
        }),
{
    let ghost start = *layer;
    let d = mask.diameter as i64;
    let w = layer.width as i64;
    let h = layer.height as i64;
    let x0: i64 = if x < 0 { 0 } else { x as i64 };
    let y0: i64 = if y < 0 { 0 } else { y as i64 };
    let x1: i64 = if (x as i64) + d < w { x as i64 + d } else { w };
    let y1: i64 = if (y as i64) + d < h { y as i64 + d } else { h };
    if x0 >= x1 || y0 >= y1 {
        proof {
            assert forall|t: int, j: int|
                0 <= t < layer.tiles@.len() && 0 <= j < TILE_LENGTH implies #[trigger] layer.tiles@[t].spec_pixel(j)
                    == dabbed_tile_pixel(start, x as int, y as int, *mask, color, mode, t, j) by {
            }
            lemma_dab_pixels(start, *layer, x as int, y as int, *mask, color, mode);
        }
        return None;
    }
    let can_paint = mode.can_increase_opacity();
    let n = Tile::div_up(layer.width) as i64;
    let ntiles = layer.tiles.len();
    let ty0 = y0 / 64;
    let ty1 = (y1 - 1) / 64;
    let tx0 = x0 / 64;
    let tx1 = (x1 - 1) / 64;
    let mut ty = ty0;
    while ty <= ty1
        invariant
            start.wf(),
            layer.tiles_ok(),
            mask.wf(),
            integer_mask_mode(mode),
            mode is Behind ==> tiles_premultiplied(start),
            can_paint <==> !(mode is Erase),
            layer.width == start.width && layer.height == start.height,
            layer.id == start.id && layer.opacity == start.opacity,
            layer.blendmode == start.blendmode && layer.hidden == start.hidden,
            layer.sublayers@ == start.sublayers@,
            layer.wf(),
            d == mask.diameter,
            x + mask.diameter <= i32::MAX,
            y + mask.diameter <= i32::MAX,
            w == start.width,
            h == start.height,
            x0 == (if x < 0 { 0 } else { x as int }),
            y0 == (if y < 0 { 0 } else { y as int }),
            x1 == (if x + d < w { x + d } else { w as int }),
            y1 == (if y + d < h { y + d } else { h as int }),
            0 <= x0 < x1 <= w,
            0 <= y0 < y1 <= h,
            n == start.xtiles(),
            ntiles == start.tiles@.len(),
            ty0 == y0 / 64,
            ty1 == (y1 - 1) / 64,
            tx0 == x0 / 64,
            tx1 == (x1 - 1) / 64,
            ty0 <= ty <= ty1 + 1,
            layer.tiles@.len() == start.tiles@.len(),
            forall|t: int, j: int|
                0 <= t < layer.tiles@.len() && 0 <= j < TILE_LENGTH ==> #[trigger] layer.tiles@[t].spec_pixel(j)
                    == if t / (n as int) < ty {
                    dabbed_tile_pixel(start, x as int, y as int, *mask, color, mode, t, j)
                } else {
                    start.tiles@[t].spec_pixel(j)
                },
        decreases ty1 + 1 - ty,
    {
        let mut tx = tx0;
        while tx <= tx1
            invariant
                start.wf(),
                layer.tiles_ok(),
                mask.wf(),
                integer_mask_mode(mode),
                mode is Behind ==> tiles_premultiplied(start),
                can_paint <==> !(mode is Erase),
                layer.width == start.width && layer.height == start.height,
                layer.id == start.id && layer.opacity == start.opacity,
                layer.blendmode == start.blendmode && layer.hidden == start.hidden,
                layer.sublayers@ == start.sublayers@,
                layer.wf(),
                d == mask.diameter,
                x + mask.diameter <= i32::MAX,
                y + mask.diameter <= i32::MAX,
                w == start.width,
                h == start.height,
                x0 == (if x < 0 { 0 } else { x as int }),
                y0 == (if y < 0 { 0 } else { y as int }),
                x1 == (if x + d < w { x + d } else { w as int }),
                y1 == (if y + d < h { y + d } else { h as int }),
                0 <= x0 < x1 <= w,
                0 <= y0 < y1 <= h,
                n == start.xtiles(),
                ntiles == start.tiles@.len(),
                ty0 == y0 / 64,
                ty1 == (y1 - 1) / 64,
                tx0 == x0 / 64,
                tx1 == (x1 - 1) / 64,
                ty0 <= ty <= ty1,
                tx0 <= tx <= tx1 + 1,
                layer.tiles@.len() == start.tiles@.len(),
                forall|t: int, j: int|
                    0 <= t < layer.tiles@.len() && 0 <= j < TILE_LENGTH ==> #[trigger] layer.tiles@[t].spec_pixel(j)
                        == if t / (n as int) < ty || (t / (n as int) == ty && t % (n as int) < tx) {
                        dabbed_tile_pixel(start, x as int, y as int, *mask, color, mode, t, j)
                    } else {
                        start.tiles@[t].spec_pixel(j)
                    },
            decreases tx1 + 1 - tx,
        {
            proof {
                lemma_tile_index(start, ty as int, tx as int, x0 as int, y0 as int, x1 as int, y1 as int);
                let t0 = ty * n + tx;
                assert forall|j: int| 0 <= j < TILE_LENGTH implies #[trigger] layer.tiles@[t0].spec_pixel(j)
                    == start.tiles@[t0].spec_pixel(j) by {
                    assert(!(t0 / (n as int) < ty || (t0 / (n as int) == ty && t0 % (n as int) < tx)));
                }
            }
            let ghost before = *layer;
            draw_dab_tile(layer, user, x, y, mask, color, mode, can_paint, ty, tx, x0, y0, x1, y1, Ghost(start));
            proof {
                let t0 = ty * n + tx;
                assert forall|t: int, j: int|
                    0 <= t < layer.tiles@.len() && 0 <= j < TILE_LENGTH implies #[trigger] layer.tiles@[t].spec_pixel(j)
                        == if t / (n as int) < ty || (t / (n as int) == ty && t % (n as int) < tx + 1) {
                        dabbed_tile_pixel(start, x as int, y as int, *mask, color, mode, t, j)
                    } else {
                        start.tiles@[t].spec_pixel(j)
                    } by {
                    if t != t0 {
                        assert(layer.tiles@[t] == before.tiles@[t]);
                        if t / (n as int) == ty && t % (n as int) == tx {
                            vstd::arithmetic::div_mod::lemma_fundamental_div_mod(t, n as int);
                            assert((n as int) * ty == ty * (n as int)) by (nonlinear_arith);
                        }
                    }
                }
            }
            tx += 1;
        }
        proof {
            assert forall|t: int, j: int|
                0 <= t < layer.tiles@.len() && 0 <= j < TILE_LENGTH implies #[trigger] layer.tiles@[t].spec_pixel(j)
                    == if t / (n as int) < ty + 1 {
                    dabbed_tile_pixel(start, x as int, y as int, *mask, color, mode, t, j)
                } else {
                    start.tiles@[t].spec_pixel(j)
                } by {
                if t / (n as int) == ty && t % (n as int) >= tx {
                    lemma_outside_tile(start, x as int, y as int, *mask, color, mode, t, j, x0 as int, y0 as int, x1 as int, y1 as int);
                }
            }
        }
        ty += 1;
    }
    proof {
        assert forall|t: int, j: int|
            0 <= t < layer.tiles@.len() && 0 <= j < TILE_LENGTH implies #[trigger] layer.tiles@[t].spec_pixel(j)
                == dabbed_tile_pixel(start, x as int, y as int, *mask, color, mode, t, j) by {
            if t / (n as int) >= ty {
                lemma_outside_tile(start, x as int, y as int, *mask, color, mode, t, j, x0 as int, y0 as int, x1 as int, y1 as int);
            }
        }
        lemma_dab_pixels(start, *layer, x as int, y as int, *mask, color, mode);
        if tiles_premultiplied(start) {
            assert forall|t: int, j: int| 0 <= t < layer.spec_tiles().len() && 0 <= j < TILE_LENGTH implies premultiplied(
                #[trigger] layer.spec_tiles()[t].spec_pixel(j),
            ) by {
                let o = start.spec_tiles()[t].spec_pixel(j);
                assert(premultiplied(o));
                let px = (t % (n as int)) * 64 + j % 64;
                let py = (t / (n as int)) * 64 + j / 64;
                if under_dab(start, x as int, y as int, mask.diameter as int, px, py) {
                    let mv = mask.mask@[(py - y) * mask.diameter + (px - x)];
                    super::rasterop::lemma_mask_keeps_premultiplied(o, color, mv);
                }
            }
        }
    }
    Some(Rectangle { x: x0 as i32, y: y0 as i32, w: (x1 - x0) as i32, h: (y1 - y0) as i32 })
}

/// A tile whose column or row lies outside the dab's tile range has no
/// pixel under the dab
proof fn lemma_outside_tile(
    l: Layer,
    x: int,
    y: int,
    mask: BrushMask,
    color: u32,
    mode: Blendmode,
    t: int,
    j: int,
    x0: int,
    y0: int,
    x1: int,
    y1: int,
)
    requires
        l.tiles_ok(),
        0 <= t < l.spec_tiles().len(),
        0 <= j < TILE_LENGTH,
        x0 == (if x < 0 { 0 } else { x }),
        y0 == (if y < 0 { 0 } else { y }),
        x1 == (if x + mask.diameter < l.width { x + mask.diameter } else { l.width as int }),
        y1 == (if y + mask.diameter < l.height { y + mask.diameter } else { l.height as int }),
        0 <= x0 < x1,
        0 <= y0 < y1,
        t % l.xtiles() < x0 / 64 || t % l.xtiles() > (x1 - 1) / 64 || t / l.xtiles() < y0 / 64
            || t / l.xtiles() > (y1 - 1) / 64,
    ensures
        dabbed_tile_pixel(l, x, y, mask, color, mode, t, j) == l.spec_tiles()[t].spec_pixel(j),
{
    let n = l.xtiles();
    let c = t % (n as int);
    let r = t / (n as int);
    let px = c * 64 + j % 64;
    let py = r * 64 + j / 64;
    assert(0 <= j % 64 < 64 && 0 <= j / 64 < 64);
    assert(x0 / 64 * 64 <= x0 && (x1 - 1) < (x1 - 1) / 64 * 64 + 64);
    assert(y0 / 64 * 64 <= y0 && (y1 - 1) < (y1 - 1) / 64 * 64 + 64);
    if c < x0 / 64 {
        assert(px < x0) by (nonlinear_arith)
            requires
                c < x0 / 64,
                px == c * 64 + j % 64,
                j % 64 < 64,
                x0 / 64 * 64 <= x0,
        ;
    } else if c > (x1 - 1) / 64 {
        assert(px >= x1) by (nonlinear_arith)
            requires
                c > (x1 - 1) / 64,
                px == c * 64 + j % 64,
                0 <= j % 64,
                (x1 - 1) < (x1 - 1) / 64 * 64 + 64,
        ;
    } else if r < y0 / 64 {
        assert(py < y0) by (nonlinear_arith)
            requires
                r < y0 / 64,
                py == r * 64 + j / 64,
                j / 64 < 64,
                y0 / 64 * 64 <= y0,
        ;
    } else {
        assert(py >= y1) by (nonlinear_arith)
            requires
                r > (y1 - 1) / 64,
                py == r * 64 + j / 64,
                0 <= j / 64,
                (y1 - 1) < (y1 - 1) / 64 * 64 + 64,
        ;
    }
}

/// Draw the dab onto the tile in column `tx`, row `ty`, which has not been
/// drawn on yet
#[verifier::rlimit(100)]
#[verifier::spinoff_prover]
fn draw_dab_tile(
    layer: &mut Layer,
    user: UserID,
    x: i32,
    y: i32,
    mask: &BrushMask,
    color: u32,
    mode: Blendmode,
    can_paint: bool,
    ty: i64,
    tx: i64,
    x0: i64,
    y0: i64,
    x1: i64,
    y1: i64,
    Ghost(start): Ghost<Layer>,
)
    requires
        old(layer).wf(),
        start.tiles_ok(),
        mask.wf(),
        integer_mask_mode(mode),
        mode is Behind ==> tiles_premultiplied(start),
        can_paint <==> !(mode is Erase),
        old(layer).width == start.width && old(layer).height == start.height,
        old(layer).tiles@.len() == start.tiles@.len(),
        x + mask.diameter <= i32::MAX,
        y + mask.diameter <= i32::MAX,
        x0 == (if x < 0 { 0 } else { x as int }),
        y0 == (if y < 0 { 0 } else { y as int }),
        x1 == (if x + mask.diameter < start.width { x + mask.diameter } else { start.width as int }),
        y1 == (if y + mask.diameter < start.height { y + mask.diameter } else { start.height as int }),
        0 <= x0 < x1,
        0 <= y0 < y1,
        y0 / 64 <= ty <= (y1 - 1) / 64,
        x0 / 64 <= tx <= (x1 - 1) / 64,
        forall|j: int|
            0 <= j < TILE_LENGTH ==> #[trigger] old(layer).tiles@[ty * start.xtiles() + tx].spec_pixel(j)
                == start.tiles@[ty * start.xtiles() + tx].spec_pixel(j),
    ensures
        final(layer).wf(),
        final(layer).width == old(layer).width && final(layer).height == old(layer).height,
        final(layer).id == old(layer).id && final(layer).opacity == old(layer).opacity,
        final(layer).blendmode == old(layer).blendmode && final(layer).hidden == old(layer).hidden,
        final(layer).sublayers@ == old(layer).sublayers@,
        final(layer).tiles@.len() == old(layer).tiles@.len(),
        forall|t: int|
            0 <= t < old(layer).tiles@.len() && t != ty * start.xtiles() + tx ==> #[trigger] final(layer).tiles@[t]
                == old(layer).tiles@[t],
        forall|j: int|
            0 <= j < TILE_LENGTH ==> #[trigger] final(layer).tiles@[ty * start.xtiles() + tx].spec_pixel(j)
                == dabbed_tile_pixel(
                start,
                x as int,
                y as int,
                *mask,
                color,
                mode,
                ty * start.xtiles() + tx,
                j,
            ),
{
    let ghost n = start.xtiles();
    let ghost t0 = ty * n + tx;
    let d = mask.diameter as i64;
    let nx = Tile::div_up(layer.width) as i64;
    let ntiles = layer.tiles.len();
    proof {
        assert(x1 <= start.width && y1 <= start.height);
        assert(tx < n && ty < start.ytiles()) by (nonlinear_arith)
            requires
                tx <= (x1 - 1) / 64,
                ty <= (y1 - 1) / 64,
                x1 <= start.width,
                y1 <= start.height,
                n == (start.width + 63) / 64,
                start.ytiles() == (start.height + 63) / 64,
        ;
        assert(0 <= tx && 0 <= ty);
        assert(0 <= t0 < n * start.ytiles()) by (nonlinear_arith)
            requires
                t0 == ty * n + tx,
                0 <= tx < n,
                0 <= ty < start.ytiles(),
        ;
        super::layer::lemma_grid_index(t0, n, tx as int, ty as int);
    }
    proof {
        assert(start.ytiles() <= 0x400_0000 && n <= 0x400_0000);
        assert(n * start.ytiles() <= 0x10_0000_0000_0000) by (nonlinear_arith)
            requires
                0 <= n <= 0x400_0000,
                0 <= start.ytiles() <= 0x400_0000,
        ;
    }
    let idx = (ty * nx + tx) as usize;
    let blank = match &layer.tiles[idx] {
        Tile::Blank => true,
        Tile::Bitmap(_) => false,
    };
    if !can_paint && blank {
        proof {
            assert forall|j: int| 0 <= j < TILE_LENGTH implies #[trigger] layer.tiles@[t0].spec_pixel(j)
                == dabbed_tile_pixel(start, x as int, y as int, *mask, color, mode, t0, j) by {
                let m = mask.mask@[0];
                lemma_mult_zero(255 - m as int);
                assert forall|mm: int| 0 <= mm <= 255 implies erase_mask(0, mm) == 0 by {
                    lemma_mult_zero(255 - mm);
                }
                assert(idx == t0);
                assert(layer.tiles@[t0].spec_pixel(j) == 0);
                assert(old(layer).tiles@[t0].spec_pixel(j) == start.tiles@[t0].spec_pixel(j));
                assert(start.tiles@[t0].spec_pixel(j) == 0);
                let px = (t0 % n) * 64 + j % 64;
                let py = (t0 / n) * 64 + j / 64;
                if under_dab(start, x as int, y as int, d as int, px, py) {
                    let k = (py - y) * d + (px - x);
                    assert(mask.mask@[k] <= 255);
                    assert(erase_mask(0, mask.mask@[k] as int) == 0);
                }
            }
        }
        return;
    }
    let tile_x = tx * 64;
    let tile_y = ty * 64;
    let cx0 = (if x0 > tile_x { x0 } else { tile_x }) - tile_x;
    let cx1 = (if x1 < tile_x + 64 { x1 } else { tile_x + 64 }) - tile_x;
    let cy0 = (if y0 > tile_y { y0 } else { tile_y }) - tile_y;
    let cy1 = (if y1 < tile_y + 64 { y1 } else { tile_y + 64 }) - tile_y;
    proof {
        assert(x0 / 64 * 64 <= x0 && x0 < x0 / 64 * 64 + 64);
        assert((x1 - 1) / 64 * 64 <= x1 - 1);
        assert(y0 / 64 * 64 <= y0 && y0 < y0 / 64 * 64 + 64);
        assert((y1 - 1) / 64 * 64 <= y1 - 1);
        assert(tile_x <= x1 - 1 && x0 < tile_x + 64) by (nonlinear_arith)
            requires
                x0 / 64 <= tx <= (x1 - 1) / 64,
                tile_x == tx * 64,
                x0 < x0 / 64 * 64 + 64,
                (x1 - 1) / 64 * 64 <= x1 - 1,
        ;
        assert(tile_y <= y1 - 1 && y0 < tile_y + 64) by (nonlinear_arith)
            requires
                y0 / 64 <= ty <= (y1 - 1) / 64,
                tile_y == ty * 64,
                y0 < y0 / 64 * 64 + 64,
                (y1 - 1) / 64 * 64 <= y1 - 1,
        ;
    }
    let sub = Rectangle { x: cx0 as i32, y: cy0 as i32, w: (cx1 - cx0) as i32, h: (cy1 - cy0) as i32 };
    let rows = layer.tiles[idx].rect_iter(&sub);
    let ghost old_tile = layer.tiles@[idx as int];
    let mlen = mask.mask.len();
    let mut out: Vec<Vec<u32>> = Vec::new();
    let mut k: i64 = 0;
    while k < cy1 - cy0
        invariant
            0 <= k <= cy1 - cy0,
            0 <= cx0 < cx1 <= 64,
            0 <= cy0 < cy1 <= 64,
            sub == (Rectangle { x: cx0 as i32, y: cy0 as i32, w: (cx1 - cx0) as i32, h: (cy1 - cy0) as i32 }),
            rows@.len() == sub.h,
            forall|kk: int|
                0 <= kk < sub.h ==> (#[trigger] rows@[kk])@ == Seq::new(
                    sub.w as nat,
                    |xx: int| old_tile.spec_pixel((sub.y + kk) * 64 + sub.x + xx),
                ),
            forall|j: int| 0 <= j < TILE_LENGTH ==> #[trigger] old_tile.spec_pixel(j) == start.tiles@[t0].spec_pixel(j),
            old_tile.wf(),
            mask.wf(),
            d == mask.diameter,
            mlen == mask.mask@.len(),
            integer_mask_mode(mode),
            mode is Behind ==> tiles_premultiplied(start),
            0 <= t0 < start.spec_tiles().len(),
            tile_x == tx * 64,
            tile_y == ty * 64,
            x0 == (if x < 0 { 0 } else { x as int }),
            y0 == (if y < 0 { 0 } else { y as int }),
            x1 == (if x + mask.diameter < start.width { x + mask.diameter } else { start.width as int }),
            y1 == (if y + mask.diameter < start.height { y + mask.diameter } else { start.height as int }),
            cx0 == (if x0 > tile_x { x0 as int } else { tile_x as int }) - tile_x,
            cx1 == (if x1 < tile_x + 64 { x1 as int } else { tile_x as int + 64 }) - tile_x,
            cy0 == (if y0 > tile_y { y0 as int } else { tile_y as int }) - tile_y,
            cy1 == (if y1 < tile_y + 64 { y1 as int } else { tile_y as int + 64 }) - tile_y,
            out@.len() == k,
            forall|kk: int|
                0 <= kk < k ==> (#[trigger] out@[kk])@.len() == sub.w && forall|xx: int|
                    0 <= xx < sub.w ==> (#[trigger] out@[kk]@[xx]) == dab_op(
                        mode,
                        rows@[kk]@[xx],
                        color,
                        mask.mask@[(tile_y + cy0 + kk - y) * d + (tile_x + cx0 + xx - x)],
                    ),
        decreases cy1 - cy0 - k,
    {
        let py = tile_y + cy0 + k;
        let mut mrow: Vec<u8> = Vec::new();
        let mut xx: i64 = 0;
        while xx < cx1 - cx0
            invariant
                0 <= xx <= cx1 - cx0,
                0 <= k < cy1 - cy0,
                0 <= cx0 < cx1 <= 64,
                0 <= cy0 < cy1 <= 64,
                py == tile_y + cy0 + k,
                mask.wf(),
                d == mask.diameter,
                mlen == mask.mask@.len(),
            mlen == mask.mask@.len(),
                tile_x == tx * 64,
                tile_y == ty * 64,
                x0 == (if x < 0 { 0 } else { x as int }),
                y0 == (if y < 0 { 0 } else { y as int }),
                x1 == (if x + mask.diameter < start.width { x + mask.diameter } else { start.width as int }),
                y1 == (if y + mask.diameter < start.height { y + mask.diameter } else { start.height as int }),
                cx0 == (if x0 > tile_x { x0 as int } else { tile_x as int }) - tile_x,
                cx1 == (if x1 < tile_x + 64 { x1 as int } else { tile_x as int + 64 }) - tile_x,
                cy0 == (if y0 > tile_y { y0 as int } else { tile_y as int }) - tile_y,
                cy1 == (if y1 < tile_y + 64 { y1 as int } else { tile_y as int + 64 }) - tile_y,
                mrow@.len() == xx,
                forall|i: int|
                    0 <= i < xx ==> #[trigger] mrow@[i] == mask.mask@[(py - y) * d + (tile_x + cx0 + i
                        - x)],
            decreases cx1 - cx0 - xx,
        {
            let px = tile_x + cx0 + xx;
            proof {
                assert(0 <= (py - y) * d + (px - x) < d * d) by (nonlinear_arith)
                    requires
                        y <= py < y + d,
                        x <= px < x + d,
                ;
            }
            proof {
                assert(((py - y) as usize) * (d as usize) <= (py - y) * d + (px - x)) by (nonlinear_arith)
                    requires
                        0 <= py - y,
                        0 <= px - x,
                        0 <= d,
                ;
            }
            let mi = ((py - y as i64) as usize) * (d as usize) + ((px - x as i64) as usize);
            mrow.push(mask.mask[mi]);
            xx += 1;
        }
        let ghost base = rows@[k as int]@;
        let mut row: Vec<u32> = rows[k as usize].clone();
        proof {
            assert(row@ =~= base);
            if mode is Behind {
                assert forall|i: int| 0 <= i < mrow@.len() && i < row@.len() implies super::rasterop::premultiplied(#[trigger] row@[i]) by {
                    assert(row@[i] == old_tile.spec_pixel((sub.y + k) * 64 + sub.x + i));
                }
            }
        }
        let done = mask_blend(row.as_mut_slice(), color, mrow.as_slice(), mode);
        out.push(row);
        proof {
            assert forall|xx: int| 0 <= xx < sub.w implies (#[trigger] out@[k as int]@[xx]) == dab_op(
                mode,
                rows@[k as int]@[xx],
                color,
                mask.mask@[(tile_y + cy0 + k - y) * d + (tile_x + cx0 + xx - x)],
            ) by {
                assert(mrow@[xx] == mask.mask@[(py - y) * d + (tile_x + cx0 + xx - x)]);
            }
        }
        k += 1;
    }
    let mut tile = layer.tiles[idx].share();
    layer.tiles.set(idx, Tile::Blank);
    tile.rect_iter_mut(user, &sub, &out);
    layer.tiles.set(idx, tile);
    proof {
        assert forall|j: int| 0 <= j < TILE_LENGTH implies #[trigger] layer.tiles@[t0].spec_pixel(j)
            == dabbed_tile_pixel(start, x as int, y as int, *mask, color, mode, t0, j) by {
            let px = (t0 % n) * 64 + j % 64;
            let py = (t0 / n) * 64 + j / 64;
            assert(j == (j / 64) * 64 + j % 64);
            assert(0 <= j % 64 < 64 && 0 <= j / 64 < 64);
            if Tile::in_rect(sub, j) {
                let kk = j / 64 - cy0;
                let xx = j % 64 - cx0;
                assert((sub.y + kk) * 64 + sub.x + xx == j);
                assert(out@[kk]@[xx] == dab_op(
                    mode,
                    rows@[kk]@[xx],
                    color,
                    mask.mask@[(tile_y + cy0 + kk - y) * d + (tile_x + cx0 + xx - x)],
                ));
            }
        }
        assert forall|k: int| 0 <= k < layer.sublayers@.len() implies {
            &&& (#[trigger] layer.sublayers@[k]).wf()
            &&& layer.sublayers@[k].width == layer.width
            &&& layer.sublayers@[k].height == layer.height
        } by {
            assert(layer.sublayers@[k] == old(layer).sublayers@[k]);
        }
    }
}

/// A tile in the dab's tile range lies in the layer
proof fn lemma_tile_index(l: Layer, ty: int, tx: int, x0: int, y0: int, x1: int, y1: int)
    requires
        l.tiles_ok(),
        0 <= x0 < x1 <= l.width,
        0 <= y0 < y1 <= l.height,
        y0 / 64 <= ty <= (y1 - 1) / 64,
        x0 / 64 <= tx <= (x1 - 1) / 64,
    ensures
        0 <= tx < l.xtiles(),
        0 <= ty < l.ytiles(),
        0 <= ty * l.xtiles() + tx < l.spec_tiles().len(),
        (ty * l.xtiles() + tx) % l.xtiles() == tx,
        (ty * l.xtiles() + tx) / l.xtiles() == ty,
{
    let n = l.xtiles();
    assert(tx < n && ty < l.ytiles()) by (nonlinear_arith)
        requires
            tx <= (x1 - 1) / 64,
            ty <= (y1 - 1) / 64,
            x1 <= l.width,
            y1 <= l.height,
            n == (l.width + 63) / 64,
            l.ytiles() == (l.height + 63) / 64,
    ;
    assert(0 <= ty * n + tx < n * l.ytiles()) by (nonlinear_arith)
        requires
            0 <= tx < n,
            0 <= ty < l.ytiles(),
    ;
    super::layer::lemma_grid_index(ty * n + tx, n, tx, ty);
}

/// A pixel `o` filled with color `c` at full opacity in the given mode
pub open spec fn fill_op(mode: Blendmode, o: u32, c: u32) -> u32 {
    match mode {
        Blendmode::Normal => blend_normal(o, c, 255),
        Blendmode::Erase => erase_pixel(o, c, 255),
        Blendmode::Behind => blend_under(o, c, 255),
        _ => replace_pixel(c, 255),
    }
}

/// Whether pixel `(px, py)` lies inside rectangle `(x, y, w, h)` and the layer
pub open spec fn under_rect(l: Layer, x: int, y: int, w: int, h: int, px: int, py: int) -> bool {
    &&& x <= px < x + w
    &&& y <= py < y + h
    &&& 0 <= px < l.width
    &&& 0 <= py < l.height
}

/// Pixel `(px, py)` of layer `l` after filling the rectangle
pub open spec fn filled_pixel(
    l: Layer,
    r: Rectangle,
    color: u32,
    mode: Blendmode,
    px: int,
    py: int,
) -> u32 {
    if under_rect(l, r.x as int, r.y as int, r.w as int, r.h as int, px, py) {
        fill_op(mode, l.spec_pixel_at(px, py), color)
    } else {
        l.spec_pixel_at(px, py)
    }
}

/// Pixel `j` of tile `t` of layer `l` after filling the rectangle
pub open spec fn filled_tile_pixel(
    l: Layer,
    x: int,
    y: int,
    w: int,
    h: int,
    color: u32,
    mode: Blendmode,
    t: int,
    j: int,
) -> u32 {
    let n = l.xtiles();
    let px = (t % n) * 64 + j % 64;
    let py = (t / n) * 64 + j / 64;
    let o = l.spec_tiles()[t].spec_pixel(j);
    if under_rect(l, x, y, w, h, px, py) {
        fill_op(mode, o, color)
    } else {
        o
    }
}

/// Tiles filled tile by tile hold the filled pixels
proof fn lemma_fill_pixels(old: Layer, new: Layer, r: Rectangle, color: u32, mode: Blendmode)
    requires
        old.tiles_ok(),
        new.width == old.width && new.height == old.height,
        new.tiles@.len() == old.tiles@.len(),
        forall|t: int, j: int|
            0 <= t < new.tiles@.len() && 0 <= j < TILE_LENGTH ==> #[trigger] new.tiles@[t].spec_pixel(j)
                == filled_tile_pixel(old, r.x as int, r.y as int, r.w as int, r.h as int, color, mode, t, j),
    ensures
        forall|px: int, py: int|
            0 <= px < 64 * old.xtiles() && 0 <= py < 64 * old.ytiles() ==> #[trigger] new.spec_pixel_at(px, py)
                == filled_pixel(old, r, color, mode, px, py),
{
    assert forall|px: int, py: int| 0 <= px < 64 * old.xtiles() && 0 <= py < 64 * old.ytiles() implies #[trigger] new.spec_pixel_at(px, py) == filled_pixel(old, r, color, mode, px, py) by {
        let n = old.xtiles();
        let m = old.ytiles();
        super::layer::lemma_pixel_place(px, py, n);
        assert(py / 64 < m) by (nonlinear_arith)
            requires
                0 <= py < 64 * m,
        ;
        assert((py / 64) * n + px / 64 < n * m) by (nonlinear_arith)
            requires
                0 <= px / 64 < n,
                0 <= py / 64 < m,
        ;
    }
}

/// A pixel of a tile whose column or row lies outside the tile range of the
/// rectangle cropped to the layer lies outside the rectangle
proof fn lemma_outside_rect(
    l: Layer,
    x: int,
    y: int,
    w: int,
    h: int,
    t: int,
    j: int,
    x0: int,
    y0: int,
    x1: int,
    y1: int,
)
    requires
        l.tiles_ok(),
        0 <= t < l.spec_tiles().len(),
        0 <= j < TILE_LENGTH,
        x0 == (if x < 0 { 0 } else { x }),
        y0 == (if y < 0 { 0 } else { y }),
        x1 == (if x + w < l.width { x + w } else { l.width as int }),
        y1 == (if y + h < l.height { y + h } else { l.height as int }),
        0 <= x0 < x1,
        0 <= y0 < y1,
        t % l.xtiles() < x0 / 64 || t % l.xtiles() > (x1 - 1) / 64 || t / l.xtiles() < y0 / 64
            || t / l.xtiles() > (y1 - 1) / 64,
    ensures
        !under_rect(l, x, y, w, h, (t % l.xtiles()) * 64 + j % 64, (t / l.xtiles()) * 64 + j / 64),
{
    let n = l.xtiles();
    let c = t % n;
    let r = t / n;
    let px = c * 64 + j % 64;
    let py = r * 64 + j / 64;
    assert(0 <= j % 64 < 64 && 0 <= j / 64 < 64);
    assert(x0 / 64 * 64 <= x0 && (x1 - 1) < (x1 - 1) / 64 * 64 + 64);
    assert(y0 / 64 * 64 <= y0 && (y1 - 1) < (y1 - 1) / 64 * 64 + 64);
    if c < x0 / 64 {
        assert(px < x0) by (nonlinear_arith)
            requires
                c < x0 / 64,
                px == c * 64 + j % 64,
                j % 64 < 64,
                x0 / 64 * 64 <= x0,
        ;
    } else if c > (x1 - 1) / 64 {
        assert(px >= x1) by (nonlinear_arith)
            requires
                c > (x1 - 1) / 64,
                px == c * 64 + j % 64,
                0 <= j % 64,
                (x1 - 1) < (x1 - 1) / 64 * 64 + 64,
        ;
    } else if r < y0 / 64 {
        assert(py < y0) by (nonlinear_arith)
            requires
                r < y0 / 64,
                py == r * 64 + j / 64,
                j / 64 < 64,
                y0 / 64 * 64 <= y0,
        ;
    } else {
        assert(py >= y1) by (nonlinear_arith)
            requires
                r > (y1 - 1) / 64,
                py == r * 64 + j / 64,
                0 <= j / 64,
                (y1 - 1) < (y1 - 1) / 64 * 64 + 64,
        ;
    }
}

/// What `fill_rect` does to a layer
pub open spec fn fill_rect_result(old_l: Layer, new_l: Layer, color: u32, mode: Blendmode, rect: Rectangle, aoe: Option<Rectangle>) -> bool {
    &&& new_l.wf()
    &&& new_l.width == old_l.width && new_l.height == old_l.height
    &&& new_l.id == old_l.id && new_l.opacity == old_l.opacity
    &&& new_l.blendmode == old_l.blendmode && new_l.hidden == old_l.hidden
    &&& new_l.sublayers@ == old_l.sublayers@
    &&& forall|px: int, py: int|
                0 <= px < 64 * old_l.xtiles() && 0 <= py < 64 * old_l.ytiles() ==> #[trigger] new_l.spec_pixel_at(px, py)
                    == filled_pixel(old_l, rect, color, mode, px, py)
    &&& ({
                let x0 = if rect.x < 0 { 0 } else { rect.x as int };
                let y0 = if rect.y < 0 { 0 } else { rect.y as int };
                let x1 = if rect.x + rect.w < old_l.width { rect.x + rect.w } else { old_l.width as int };
                let y1 = if rect.y + rect.h < old_l.height { rect.y + rect.h } else { old_l.height as int };
                if x0 < x1 && y0 < y1 {
                    aoe == Some(Rectangle { x: x0 as i32, y: y0 as i32, w: (x1 - x0) as i32, h: (y1 - y0) as i32 })
                } else {
                    aoe is None
                }
            })
}

/// Fill a rectangle with a pixel value (premultiplied ARGB) blended in the
/// given mode (the integer modes: normal, erase, behind, replace). Returns
/// the area that was filled, the rectangle cropped to the layer, or `None`
/// when it lies outside the layer. Pixels inside are blended with the color
/// at full opacity; all others keep their values.
pub fn fill_rect(
    layer: &mut Layer,
    user: UserID,
    color: u32,
    mode: Blendmode,
    rect: &Rectangle,
) -> (aoe: Option<Rectangle>)
    requires
        old(layer).wf(),
        0 <= rect.w && 0 <= rect.h,
        integer_pixel_mode(mode),
        mode is Normal ==> premultiplied(color),
        mode is Behind ==> tiles_premultiplied(*old(layer)),
        rect.x + rect.w <= i32::MAX,
        rect.y + rect.h <= i32::MAX,
    ensures
        fill_rect_result(*old(layer), *final(layer), color, mode, *rect, aoe),
{
    let ghost start = *layer;
    let x = rect.x;
    let y = rect.y;
    let rw = rect.w;
    let rh = rect.h;
    let w = layer.width as i64;
    let h = layer.height as i64;
    let x0: i64 = if x < 0 { 0 } else { x as i64 };
    let y0: i64 = if y < 0 { 0 } else { y as i64 };
    let x1: i64 = if (x as i64) + (rw as i64) < w { x as i64 + rw as i64 } else { w };
    let y1: i64 = if (y as i64) + (rh as i64) < h { y as i64 + rh as i64 } else { h };
    if x0 >= x1 || y0 >= y1 {
        proof {
            assert forall|t: int, j: int|
                0 <= t < layer.tiles@.len() && 0 <= j < TILE_LENGTH implies #[trigger] layer.tiles@[t].spec_pixel(j)
                    == filled_tile_pixel(start, x as int, y as int, rw as int, rh as int, color, mode, t, j) by {
            }
            lemma_fill_pixels(start, *layer, *rect, color, mode);
        }
        return None;
    }
    let can_paint = mode.can_increase_opacity();
    let n = Tile::div_up(layer.width) as i64;
    let ntiles = layer.tiles.len();
    let ty0 = y0 / 64;
    let ty1 = (y1 - 1) / 64;
    let tx0 = x0 / 64;
    let tx1 = (x1 - 1) / 64;
    let mut ty = ty0;
    while ty <= ty1
        invariant
            start.wf(),
            layer.tiles_ok(),
            0 <= rw && 0 <= rh,
            x == rect.x && y == rect.y && rw == rect.w && rh == rect.h,
            integer_pixel_mode(mode),
            mode is Normal ==> premultiplied(color),
            mode is Behind ==> tiles_premultiplied(start),
            can_paint <==> !(mode is Erase),
            layer.width == start.width && layer.height == start.height,
            layer.id == start.id && layer.opacity == start.opacity,
            layer.blendmode == start.blendmode && layer.hidden == start.hidden,
            layer.sublayers@ == start.sublayers@,
            layer.wf(),
            rect.x + rect.w <= i32::MAX,
            rect.y + rect.h <= i32::MAX,
            w == start.width,
            h == start.height,
            x0 == (if x < 0 { 0 } else { x as int }),
            y0 == (if y < 0 { 0 } else { y as int }),
            x1 == (if x + rw < w { x + rw } else { w as int }),
            y1 == (if y + rh < h { y + rh } else { h as int }),
            0 <= x0 < x1 <= w,
            0 <= y0 < y1 <= h,
            n == start.xtiles(),
            ntiles == start.tiles@.len(),
            ty0 == y0 / 64,
            ty1 == (y1 - 1) / 64,
            tx0 == x0 / 64,
            tx1 == (x1 - 1) / 64,
            ty0 <= ty <= ty1 + 1,
            layer.tiles@.len() == start.tiles@.len(),
            forall|t: int, j: int|
                0 <= t < layer.tiles@.len() && 0 <= j < TILE_LENGTH ==> #[trigger] layer.tiles@[t].spec_pixel(j)
                    == if t / (n as int) < ty {
                    filled_tile_pixel(start, x as int, y as int, rw as int, rh as int, color, mode, t, j)
                } else {
                    start.tiles@[t].spec_pixel(j)
                },
        decreases ty1 + 1 - ty,
    {
        let mut tx = tx0;
        while tx <= tx1
            invariant
                start.wf(),
                layer.tiles_ok(),
                0 <= rw && 0 <= rh,
                x == rect.x && y == rect.y && rw == rect.w && rh == rect.h,
                integer_pixel_mode(mode),
                mode is Normal ==> premultiplied(color),
                mode is Behind ==> tiles_premultiplied(start),
                can_paint <==> !(mode is Erase),
                layer.width == start.width && layer.height == start.height,
                layer.id == start.id && layer.opacity == start.opacity,
                layer.blendmode == start.blendmode && layer.hidden == start.hidden,
                layer.sublayers@ == start.sublayers@,
                layer.wf(),
                rect.x + rect.w <= i32::MAX,
                rect.y + rect.h <= i32::MAX,
                w == start.width,
                h == start.height,
                x0 == (if x < 0 { 0 } else { x as int }),
                y0 == (if y < 0 { 0 } else { y as int }),
                x1 == (if x + rw < w { x + rw } else { w as int }),
                y1 == (if y + rh < h { y + rh } else { h as int }),
                0 <= x0 < x1 <= w,
                0 <= y0 < y1 <= h,
                n == start.xtiles(),
                ntiles == start.tiles@.len(),
                ty0 == y0 / 64,
                ty1 == (y1 - 1) / 64,
                tx0 == x0 / 64,
                tx1 == (x1 - 1) / 64,
                ty0 <= ty <= ty1,
                tx0 <= tx <= tx1 + 1,
                layer.tiles@.len() == start.tiles@.len(),
                forall|t: int, j: int|
                    0 <= t < layer.tiles@.len() && 0 <= j < TILE_LENGTH ==> #[trigger] layer.tiles@[t].spec_pixel(j)
                        == if t / (n as int) < ty || (t / (n as int) == ty && t % (n as int) < tx) {
                        filled_tile_pixel(start, x as int, y as int, rw as int, rh as int, color, mode, t, j)
                    } else {
                        start.tiles@[t].spec_pixel(j)
                    },
            decreases tx1 + 1 - tx,
        {
            proof {
                lemma_tile_index(start, ty as int, tx as int, x0 as int, y0 as int, x1 as int, y1 as int);
                let t0 = ty * n + tx;
                assert forall|j: int| 0 <= j < TILE_LENGTH implies #[trigger] layer.tiles@[t0].spec_pixel(j)
                    == start.tiles@[t0].spec_pixel(j) by {
                    assert(!(t0 / (n as int) < ty || (t0 / (n as int) == ty && t0 % (n as int) < tx)));
                }
            }
            let ghost before = *layer;
            fill_rect_tile(layer, user, x, y, rw, rh, color, mode, can_paint, ty, tx, x0, y0, x1, y1, Ghost(start));
            proof {
                let t0 = ty * n + tx;
                assert forall|t: int, j: int|
                    0 <= t < layer.tiles@.len() && 0 <= j < TILE_LENGTH implies #[trigger] layer.tiles@[t].spec_pixel(j)
                        == if t / (n as int) < ty || (t / (n as int) == ty && t % (n as int) < tx + 1) {
                        filled_tile_pixel(start, x as int, y as int, rw as int, rh as int, color, mode, t, j)
                    } else {
                        start.tiles@[t].spec_pixel(j)
                    } by {
                    if t != t0 {
                        assert(layer.tiles@[t] == before.tiles@[t]);
                        if t / (n as int) == ty && t % (n as int) == tx {
                            vstd::arithmetic::div_mod::lemma_fundamental_div_mod(t, n as int);
                            assert((n as int) * ty == ty * (n as int)) by (nonlinear_arith);
                        }
                    }
                }
            }
            tx += 1;
        }
        proof {
            assert forall|t: int, j: int|
                0 <= t < layer.tiles@.len() && 0 <= j < TILE_LENGTH implies #[trigger] layer.tiles@[t].spec_pixel(j)
                    == if t / (n as int) < ty + 1 {
                    filled_tile_pixel(start, x as int, y as int, rw as int, rh as int, color, mode, t, j)
                } else {
                    start.tiles@[t].spec_pixel(j)
                } by {
                if t / (n as int) == ty && t % (n as int) >= tx {
                    lemma_outside_rect(start, x as int, y as int, rw as int, rh as int, t, j, x0 as int, y0 as int, x1 as int, y1 as int);
                }
            }
        }
        ty += 1;
    }
    proof {
        assert forall|t: int, j: int|
            0 <= t < layer.tiles@.len() && 0 <= j < TILE_LENGTH implies #[trigger] layer.tiles@[t].spec_pixel(j)
                == filled_tile_pixel(start, x as int, y as int, rw as int, rh as int, color, mode, t, j) by {
            if t / (n as int) >= ty {
                lemma_outside_rect(start, x as int, y as int, rw as int, rh as int, t, j, x0 as int, y0 as int, x1 as int, y1 as int);
            }
        }
        lemma_fill_pixels(start, *layer, *rect, color, mode);
    }
    Some(Rectangle { x: x0 as i32, y: y0 as i32, w: (x1 - x0) as i32, h: (y1 - y0) as i32 })
}

/// Fill the part of the tile in column `tx`, row `ty` inside the rectangle;
/// the tile has not been filled yet
#[verifier::rlimit(100)]
#[verifier::spinoff_prover]
fn fill_rect_tile(
    layer: &mut Layer,
    user: UserID,
    x: i32,
    y: i32,
    rw: i32,
    rh: i32,
    color: u32,
    mode: Blendmode,
    can_paint: bool,
    ty: i64,
    tx: i64,
    x0: i64,
    y0: i64,
    x1: i64,
    y1: i64,
    Ghost(start): Ghost<Layer>,
)
    requires
        old(layer).wf(),
        start.tiles_ok(),
        0 <= rw && 0 <= rh,
        integer_pixel_mode(mode),
        mode is Normal ==> premultiplied(color),
        mode is Behind ==> tiles_premultiplied(start),
        can_paint <==> !(mode is Erase),
        old(layer).width == start.width && old(layer).height == start.height,
        old(layer).tiles@.len() == start.tiles@.len(),
        x + rw <= i32::MAX,
        y + rh <= i32::MAX,
        x0 == (if x < 0 { 0 } else { x as int }),
        y0 == (if y < 0 { 0 } else { y as int }),
        x1 == (if x + rw < start.width { x + rw } else { start.width as int }),
        y1 == (if y + rh < start.height { y + rh } else { start.height as int }),
        0 <= x0 < x1,
        0 <= y0 < y1,
        y0 / 64 <= ty <= (y1 - 1) / 64,
        x0 / 64 <= tx <= (x1 - 1) / 64,
        forall|j: int|
            0 <= j < TILE_LENGTH ==> #[trigger] old(layer).tiles@[ty * start.xtiles() + tx].spec_pixel(j)
                == start.tiles@[ty * start.xtiles() + tx].spec_pixel(j),
    ensures
        final(layer).wf(),
        final(layer).width == old(layer).width && final(layer).height == old(layer).height,
        final(layer).id == old(layer).id && final(layer).opacity == old(layer).opacity,
        final(layer).blendmode == old(layer).blendmode && final(layer).hidden == old(layer).hidden,
        final(layer).sublayers@ == old(layer).sublayers@,
        final(layer).tiles@.len() == old(layer).tiles@.len(),
        forall|t: int|
            0 <= t < old(layer).tiles@.len() && t != ty * start.xtiles() + tx ==> #[trigger] final(layer).tiles@[t]
                == old(layer).tiles@[t],
        forall|j: int|
            0 <= j < TILE_LENGTH ==> #[trigger] final(layer).tiles@[ty * start.xtiles() + tx].spec_pixel(j)
                == filled_tile_pixel(
                start,
                x as int,
                y as int,
                rw as int,
                rh as int,
                color,
                mode,
                ty * start.xtiles() + tx,
                j,
            ),
{
    let ghost n = start.xtiles();
    let ghost t0 = ty * n + tx;
    let nx = Tile::div_up(layer.width) as i64;
    let ntiles = layer.tiles.len();
    proof {
        assert(x1 <= start.width && y1 <= start.height);
        assert(tx < n && ty < start.ytiles()) by (nonlinear_arith)
            requires
                tx <= (x1 - 1) / 64,
                ty <= (y1 - 1) / 64,
                x1 <= start.width,
                y1 <= start.height,
                n == (start.width + 63) / 64,
                start.ytiles() == (start.height + 63) / 64,
        ;
        assert(0 <= tx && 0 <= ty);
        assert(0 <= t0 < n * start.ytiles()) by (nonlinear_arith)
            requires
                t0 == ty * n + tx,
                0 <= tx < n,
                0 <= ty < start.ytiles(),
        ;
        super::layer::lemma_grid_index(t0, n, tx as int, ty as int);
    }
    proof {
        assert(start.ytiles() <= 0x400_0000 && n <= 0x400_0000);
        assert(n * start.ytiles() <= 0x10_0000_0000_0000) by (nonlinear_arith)
            requires
                0 <= n <= 0x400_0000,
                0 <= start.ytiles() <= 0x400_0000,
        ;
    }
    let idx = (ty * nx + tx) as usize;
    let blank = match &layer.tiles[idx] {
        Tile::Blank => true,
        Tile::Bitmap(_) => false,
    };
    if !can_paint && blank {
        proof {
            assert forall|j: int| 0 <= j < TILE_LENGTH implies #[trigger] layer.tiles@[t0].spec_pixel(j)
                == filled_tile_pixel(start, x as int, y as int, rw as int, rh as int, color, mode, t0, j) by {
                assert(idx == t0);
                assert(layer.tiles@[t0].spec_pixel(j) == 0);
                assert(old(layer).tiles@[t0].spec_pixel(j) == start.tiles@[t0].spec_pixel(j));
                lemma_mult_zero(255 - super::rasterop::mult(ch_a(color) as int, 255));
                assert(erase_pixel(0, color, 255) == 0) by {
                    let a = 255 - super::rasterop::mult(ch_a(color) as int, 255);
                    super::rasterop::lemma_mult_le(ch_a(color) as int, 255);
                    lemma_mult_zero(a);
                }
            }
        }
        return;
    }
    let tile_x = tx * 64;
    let tile_y = ty * 64;
    let cx0 = (if x0 > tile_x { x0 } else { tile_x }) - tile_x;
    let cx1 = (if x1 < tile_x + 64 { x1 } else { tile_x + 64 }) - tile_x;
    let cy0 = (if y0 > tile_y { y0 } else { tile_y }) - tile_y;
    let cy1 = (if y1 < tile_y + 64 { y1 } else { tile_y + 64 }) - tile_y;
    proof {
        assert(x0 / 64 * 64 <= x0 && x0 < x0 / 64 * 64 + 64);
        assert((x1 - 1) / 64 * 64 <= x1 - 1);
        assert(y0 / 64 * 64 <= y0 && y0 < y0 / 64 * 64 + 64);
        assert((y1 - 1) / 64 * 64 <= y1 - 1);
        assert(tile_x <= x1 - 1 && x0 < tile_x + 64) by (nonlinear_arith)
            requires
                x0 / 64 <= tx <= (x1 - 1) / 64,
                tile_x == tx * 64,
                x0 < x0 / 64 * 64 + 64,
                (x1 - 1) / 64 * 64 <= x1 - 1,
        ;
        assert(tile_y <= y1 - 1 && y0 < tile_y + 64) by (nonlinear_arith)
            requires
                y0 / 64 <= ty <= (y1 - 1) / 64,
                tile_y == ty * 64,
                y0 < y0 / 64 * 64 + 64,
                (y1 - 1) / 64 * 64 <= y1 - 1,
        ;
    }
    let sub = Rectangle { x: cx0 as i32, y: cy0 as i32, w: (cx1 - cx0) as i32, h: (cy1 - cy0) as i32 };
    let rows = layer.tiles[idx].rect_iter(&sub);
    let ghost old_tile = layer.tiles@[idx as int];
    let mut over: Vec<u32> = Vec::new();
    let mut oi: usize = 0;
    while oi < 64
        invariant
            oi <= 64,
            over@.len() == oi,
            forall|i: int| 0 <= i < oi ==> #[trigger] over@[i] == color,
        decreases 64 - oi,
    {
        over.push(color);
        oi += 1;
    }
    let mut out: Vec<Vec<u32>> = Vec::new();
    let mut k: i64 = 0;
    while k < cy1 - cy0
        invariant
            0 <= k <= cy1 - cy0,
            0 <= cx0 < cx1 <= 64,
            0 <= cy0 < cy1 <= 64,
            sub == (Rectangle { x: cx0 as i32, y: cy0 as i32, w: (cx1 - cx0) as i32, h: (cy1 - cy0) as i32 }),
            rows@.len() == sub.h,
            forall|kk: int|
                0 <= kk < sub.h ==> (#[trigger] rows@[kk])@ == Seq::new(
                    sub.w as nat,
                    |xx: int| old_tile.spec_pixel((sub.y + kk) * 64 + sub.x + xx),
                ),
            forall|j: int| 0 <= j < TILE_LENGTH ==> #[trigger] old_tile.spec_pixel(j) == start.tiles@[t0].spec_pixel(j),
            old_tile.wf(),
            0 <= rw && 0 <= rh,
            over@.len() == 64,
            forall|i: int| 0 <= i < 64 ==> #[trigger] over@[i] == color,
            integer_pixel_mode(mode),
            mode is Normal ==> premultiplied(color),
            mode is Behind ==> tiles_premultiplied(start),
            0 <= t0 < start.spec_tiles().len(),
            tile_x == tx * 64,
            tile_y == ty * 64,
            x0 == (if x < 0 { 0 } else { x as int }),
            y0 == (if y < 0 { 0 } else { y as int }),
            x1 == (if x + rw < start.width { x + rw } else { start.width as int }),
            y1 == (if y + rh < start.height { y + rh } else { start.height as int }),
            cx0 == (if x0 > tile_x { x0 as int } else { tile_x as int }) - tile_x,
            cx1 == (if x1 < tile_x + 64 { x1 as int } else { tile_x as int + 64 }) - tile_x,
            cy0 == (if y0 > tile_y { y0 as int } else { tile_y as int }) - tile_y,
            cy1 == (if y1 < tile_y + 64 { y1 as int } else { tile_y as int + 64 }) - tile_y,
            out@.len() == k,
            forall|kk: int|
                0 <= kk < k ==> (#[trigger] out@[kk])@.len() == sub.w && forall|xx: int|
                    0 <= xx < sub.w ==> (#[trigger] out@[kk]@[xx]) == fill_op(
                        mode,
                        rows@[kk]@[xx],
                        color,
                    ),
        decreases cy1 - cy0 - k,
    {
        let ghost base = rows@[k as int]@;
        let mut row: Vec<u32> = rows[k as usize].clone();
        proof {
            assert(row@ =~= base);
            if mode is Behind {
                assert forall|i: int| 0 <= i < over@.len() && i < row@.len() implies super::rasterop::premultiplied(#[trigger] row@[i]) by {
                    assert(row@[i] == old_tile.spec_pixel((sub.y + k) * 64 + sub.x + i));
                }
            }
        }
        proof {
            if mode is Normal {
                assert forall|i: int| 0 <= i < row@.len() && i < over@.len() implies premultiplied(#[trigger] over@[i]) by {
                }
            }
        }
        let done = pixel_blend(row.as_mut_slice(), over.as_slice(), 255, mode);
        out.push(row);
        proof {
            assert forall|xx: int| 0 <= xx < sub.w implies (#[trigger] out@[k as int]@[xx]) == fill_op(
                mode,
                rows@[k as int]@[xx],
                color,
            ) by {
                assert(over@[xx] == color);
            }
        }
        k += 1;
    }
    let mut tile = layer.tiles[idx].share();
    layer.tiles.set(idx, Tile::Blank);
    tile.rect_iter_mut(user, &sub, &out);
    layer.tiles.set(idx, tile);
    proof {
        assert forall|j: int| 0 <= j < TILE_LENGTH implies #[trigger] layer.tiles@[t0].spec_pixel(j)
            == filled_tile_pixel(start, x as int, y as int, rw as int, rh as int, color, mode, t0, j) by {
            let px = (t0 % n) * 64 + j % 64;
            let py = (t0 / n) * 64 + j / 64;
            assert(j == (j / 64) * 64 + j % 64);
            assert(0 <= j % 64 < 64 && 0 <= j / 64 < 64);
            if Tile::in_rect(sub, j) {
                let kk = j / 64 - cy0;
                let xx = j % 64 - cx0;
                assert((sub.y + kk) * 64 + sub.x + xx == j);
                assert(out@[kk]@[xx] == fill_op(mode, rows@[kk]@[xx], color));
            }
        }
        assert forall|k: int| 0 <= k < layer.sublayers@.len() implies {
            &&& (#[trigger] layer.sublayers@[k]).wf()
            &&& layer.sublayers@[k].width == layer.width
            &&& layer.sublayers@[k].height == layer.height
        } by {
            assert(layer.sublayers@[k] == old(layer).sublayers@[k]);
        }
    }
}


/// The pixel of an image `w` pixels wide, drawn with its corner at `(x, y)`,
/// that lands on `(px, py)`
pub open spec fn image_at(image: Seq<u32>, x: int, y: int, w: int, px: int, py: int) -> u32 {
    image[(py - y) * w + (px - x)]
}

/// Pixel `(px, py)` of layer `l` after drawing `image` onto rectangle `r`
pub open spec fn drawn_pixel(
    l: Layer,
    r: Rectangle,
    image: Seq<u32>,
    opacity: u8,
    mode: Blendmode,
    px: int,
    py: int,
) -> u32 {
    if under_rect(l, r.x as int, r.y as int, r.w as int, r.h as int, px, py) {
        blend_op(
            mode,
            l.spec_pixel_at(px, py),
            image_at(image, r.x as int, r.y as int, r.w as int, px, py),
            opacity as int,
        )
    } else {
        l.spec_pixel_at(px, py)
    }
}

/// Pixel `j` of tile `t` of layer `l` after drawing `image` onto rectangle
/// `(x, y, w, h)`
pub open spec fn drawn_tile_pixel(
    l: Layer,
    x: int,
    y: int,
    w: int,
    h: int,
    image: Seq<u32>,
    opacity: u8,
    mode: Blendmode,
    t: int,
    j: int,
) -> u32 {
    let n = l.xtiles();
    let px = (t % n) * 64 + j % 64;
    let py = (t / n) * 64 + j / 64;
    let o = l.spec_tiles()[t].spec_pixel(j);
    if under_rect(l, x, y, w, h, px, py) {
        blend_op(mode, o, image_at(image, x, y, w, px, py), opacity as int)
    } else {
        o
    }
}

/// Tiles drawn on tile by tile hold the drawn pixels
proof fn lemma_drawn_pixels(
    old: Layer,
    new: Layer,
    r: Rectangle,
    image: Seq<u32>,
    opacity: u8,
    mode: Blendmode,
)
    requires
        old.tiles_ok(),
        new.width == old.width && new.height == old.height,
        new.tiles@.len() == old.tiles@.len(),
        forall|t: int, j: int|
            0 <= t < new.tiles@.len() && 0 <= j < TILE_LENGTH ==> #[trigger] new.tiles@[t].spec_pixel(j)
                == drawn_tile_pixel(old, r.x as int, r.y as int, r.w as int, r.h as int, image, opacity, mode, t, j),
    ensures
        forall|px: int, py: int|
            0 <= px < 64 * old.xtiles() && 0 <= py < 64 * old.ytiles() ==> #[trigger] new.spec_pixel_at(px, py)
                == drawn_pixel(old, r, image, opacity, mode, px, py),
{
    assert forall|px: int, py: int| 0 <= px < 64 * old.xtiles() && 0 <= py < 64 * old.ytiles() implies #[trigger] new.spec_pixel_at(px, py) == drawn_pixel(old, r, image, opacity, mode, px, py) by {
        let n = old.xtiles();
        let m = old.ytiles();
        super::layer::lemma_pixel_place(px, py, n);
        assert(py / 64 < m) by (nonlinear_arith)
            requires
                0 <= py < 64 * m,
        ;
        assert((py / 64) * n + px / 64 < n * m) by (nonlinear_arith)
            requires
                0 <= px / 64 < n,
                0 <= py / 64 < m,
        ;
    }
}

/// What `draw_image` does to a layer
pub open spec fn draw_image_result(
    old_l: Layer,
    new_l: Layer,
    image: Seq<u32>,
    opacity: u8,
    mode: Blendmode,
    rect: Rectangle,
    aoe: Option<Rectangle>,
) -> bool {
    &&& new_l.wf()
    &&& new_l.width == old_l.width && new_l.height == old_l.height
    &&& new_l.id == old_l.id && new_l.opacity == old_l.opacity
    &&& new_l.blendmode == old_l.blendmode && new_l.hidden == old_l.hidden
    &&& new_l.sublayers@ == old_l.sublayers@
    &&& forall|px: int, py: int|
        0 <= px < 64 * old_l.xtiles() && 0 <= py < 64 * old_l.ytiles() ==> #[trigger] new_l.spec_pixel_at(px, py)
            == drawn_pixel(old_l, rect, image, opacity, mode, px, py)
    &&& ({
        let x0 = if rect.x < 0 { 0 } else { rect.x as int };
        let y0 = if rect.y < 0 { 0 } else { rect.y as int };
        let x1 = if rect.x + rect.w < old_l.width { rect.x + rect.w } else { old_l.width as int };
        let y1 = if rect.y + rect.h < old_l.height { rect.y + rect.h } else { old_l.height as int };
        if x0 < x1 && y0 < y1 {
            aoe == Some(Rectangle { x: x0 as i32, y: y0 as i32, w: (x1 - x0) as i32, h: (y1 - y0) as i32 })
        } else {
            aoe is None
        }
    })
}

/// Draw an image (premultiplied ARGB, row by row, `rect.w` pixels per row)
/// onto the rectangle `rect`, with the given opacity and mode (the integer
/// modes: normal, erase, behind, replace). The rectangle may reach past the
/// layer's edges; it is cropped. Returns the area drawn, the rectangle
/// cropped to the layer, or `None` when it lies outside the layer. Pixels
/// inside are blended with the image pixel that lands on them; all others
/// keep their values.
pub fn draw_image(
    layer: &mut Layer,
    user: UserID,
    image: &[u32],
    rect: &Rectangle,
    opacity: u8,
    mode: Blendmode,
) -> (aoe: Option<Rectangle>)
    requires
        old(layer).wf(),
        0 <= rect.w && 0 <= rect.h,
        image@.len() == rect.w * rect.h,
        integer_pixel_mode(mode),
        mode is Normal ==> all_premultiplied(image@, image@.len() as int),
        mode is Behind ==> tiles_premultiplied(*old(layer)),
        rect.x + rect.w <= i32::MAX,
        rect.y + rect.h <= i32::MAX,
    ensures
        draw_image_result(*old(layer), *final(layer), image@, opacity, mode, *rect, aoe),
{
    let ghost start = *layer;
    let x = rect.x;
    let y = rect.y;
    let rw = rect.w;
    let rh = rect.h;
    let w = layer.width as i64;
    let h = layer.height as i64;
    let x0: i64 = if x < 0 { 0 } else { x as i64 };
    let y0: i64 = if y < 0 { 0 } else { y as i64 };
    let x1: i64 = if (x as i64) + (rw as i64) < w { x as i64 + rw as i64 } else { w };
    let y1: i64 = if (y as i64) + (rh as i64) < h { y as i64 + rh as i64 } else { h };
    if x0 >= x1 || y0 >= y1 {
        proof {
            assert forall|t: int, j: int|
                0 <= t < layer.tiles@.len() && 0 <= j < TILE_LENGTH implies #[trigger] layer.tiles@[t].spec_pixel(j)
                    == drawn_tile_pixel(start, x as int, y as int, rw as int, rh as int, image@, opacity, mode, t, j) by {
            }
            lemma_drawn_pixels(start, *layer, *rect, image@, opacity, mode);
        }
        return None;
    }
    let can_paint = mode.can_increase_opacity();
    let n = Tile::div_up(layer.width) as i64;
    let ntiles = layer.tiles.len();
    let ty0 = y0 / 64;
    let ty1 = (y1 - 1) / 64;
    let tx0 = x0 / 64;
    let tx1 = (x1 - 1) / 64;
    let mut ty = ty0;
    while ty <= ty1
        invariant
            start.wf(),
            layer.tiles_ok(),
            0 <= rw && 0 <= rh,
            image@.len() == rw * rh,
            x == rect.x && y == rect.y && rw == rect.w && rh == rect.h,
            integer_pixel_mode(mode),
            mode is Normal ==> all_premultiplied(image@, image@.len() as int),
            mode is Behind ==> tiles_premultiplied(start),
            can_paint <==> !(mode is Erase),
            layer.width == start.width && layer.height == start.height,
            layer.id == start.id && layer.opacity == start.opacity,
            layer.blendmode == start.blendmode && layer.hidden == start.hidden,
            layer.sublayers@ == start.sublayers@,
            layer.wf(),
            rect.x + rect.w <= i32::MAX,
            rect.y + rect.h <= i32::MAX,
            w == start.width,
            h == start.height,
            x0 == (if x < 0 { 0 } else { x as int }),
            y0 == (if y < 0 { 0 } else { y as int }),
            x1 == (if x + rw < w { x + rw } else { w as int }),
            y1 == (if y + rh < h { y + rh } else { h as int }),
            0 <= x0 < x1 <= w,
            0 <= y0 < y1 <= h,
            n == start.xtiles(),
            ntiles == start.tiles@.len(),
            ty0 == y0 / 64,
            ty1 == (y1 - 1) / 64,
            tx0 == x0 / 64,
            tx1 == (x1 - 1) / 64,
            ty0 <= ty <= ty1 + 1,
            layer.tiles@.len() == start.tiles@.len(),
            forall|t: int, j: int|
                0 <= t < layer.tiles@.len() && 0 <= j < TILE_LENGTH ==> #[trigger] layer.tiles@[t].spec_pixel(j)
                    == if t / (n as int) < ty {
                    drawn_tile_pixel(start, x as int, y as int, rw as int, rh as int, image@, opacity, mode, t, j)
                } else {
                    start.tiles@[t].spec_pixel(j)
                },
        decreases ty1 + 1 - ty,
    {
        let mut tx = tx0;
        while tx <= tx1
            invariant
                start.wf(),
                layer.tiles_ok(),
                0 <= rw && 0 <= rh,
                image@.len() == rw * rh,
                x == rect.x && y == rect.y && rw == rect.w && rh == rect.h,
                integer_pixel_mode(mode),
                mode is Normal ==> all_premultiplied(image@, image@.len() as int),
                mode is Behind ==> tiles_premultiplied(start),
                can_paint <==> !(mode is Erase),
                layer.width == start.width && layer.height == start.height,
                layer.id == start.id && layer.opacity == start.opacity,
                layer.blendmode == start.blendmode && layer.hidden == start.hidden,
                layer.sublayers@ == start.sublayers@,
                layer.wf(),
                rect.x + rect.w <= i32::MAX,
                rect.y + rect.h <= i32::MAX,
                w == start.width,
                h == start.height,
                x0 == (if x < 0 { 0 } else { x as int }),
                y0 == (if y < 0 { 0 } else { y as int }),
                x1 == (if x + rw < w { x + rw } else { w as int }),
                y1 == (if y + rh < h { y + rh } else { h as int }),
                0 <= x0 < x1 <= w,
                0 <= y0 < y1 <= h,
                n == start.xtiles(),
                ntiles == start.tiles@.len(),
                ty0 == y0 / 64,
                ty1 == (y1 - 1) / 64,
                tx0 == x0 / 64,
                tx1 == (x1 - 1) / 64,
                ty0 <= ty <= ty1,
                tx0 <= tx <= tx1 + 1,
                layer.tiles@.len() == start.tiles@.len(),
                forall|t: int, j: int|
                    0 <= t < layer.tiles@.len() && 0 <= j < TILE_LENGTH ==> #[trigger] layer.tiles@[t].spec_pixel(j)
                        == if t / (n as int) < ty || (t / (n as int) == ty && t % (n as int) < tx) {
                        drawn_tile_pixel(start, x as int, y as int, rw as int, rh as int, image@, opacity, mode, t, j)
                    } else {
                        start.tiles@[t].spec_pixel(j)
                    },
            decreases tx1 + 1 - tx,
        {
            proof {
                lemma_tile_index(start, ty as int, tx as int, x0 as int, y0 as int, x1 as int, y1 as int);
                let t0 = ty * n + tx;
                assert forall|j: int| 0 <= j < TILE_LENGTH implies #[trigger] layer.tiles@[t0].spec_pixel(j)
                    == start.tiles@[t0].spec_pixel(j) by {
                    assert(!(t0 / (n as int) < ty || (t0 / (n as int) == ty && t0 % (n as int) < tx)));
                }
            }
            let ghost before = *layer;
            draw_image_tile(layer, user, image, x, y, rw, rh, opacity, mode, can_paint, ty, tx, x0, y0, x1, y1, Ghost(start));
            proof {
                let t0 = ty * n + tx;
                assert forall|t: int, j: int|
                    0 <= t < layer.tiles@.len() && 0 <= j < TILE_LENGTH implies #[trigger] layer.tiles@[t].spec_pixel(j)
                        == if t / (n as int) < ty || (t / (n as int) == ty && t % (n as int) < tx + 1) {
                        drawn_tile_pixel(start, x as int, y as int, rw as int, rh as int, image@, opacity, mode, t, j)
                    } else {
                        start.tiles@[t].spec_pixel(j)
                    } by {
                    if t != t0 {
                        assert(layer.tiles@[t] == before.tiles@[t]);
                        if t / (n as int) == ty && t % (n as int) == tx {
                            vstd::arithmetic::div_mod::lemma_fundamental_div_mod(t, n as int);
                            assert((n as int) * ty == ty * (n as int)) by (nonlinear_arith);
                        }
                    }
                }
            }
            tx += 1;
        }
        proof {
            assert forall|t: int, j: int|
                0 <= t < layer.tiles@.len() && 0 <= j < TILE_LENGTH implies #[trigger] layer.tiles@[t].spec_pixel(j)
                    == if t / (n as int) < ty + 1 {
                    drawn_tile_pixel(start, x as int, y as int, rw as int, rh as int, image@, opacity, mode, t, j)
                } else {
                    start.tiles@[t].spec_pixel(j)
                } by {
                if t / (n as int) == ty && t % (n as int) >= tx {
                    lemma_outside_rect(start, x as int, y as int, rw as int, rh as int, t, j, x0 as int, y0 as int, x1 as int, y1 as int);
                }
            }
        }
        ty += 1;
    }
    proof {
        assert forall|t: int, j: int|
            0 <= t < layer.tiles@.len() && 0 <= j < TILE_LENGTH implies #[trigger] layer.tiles@[t].spec_pixel(j)
                == drawn_tile_pixel(start, x as int, y as int, rw as int, rh as int, image@, opacity, mode, t, j) by {
            if t / (n as int) >= ty {
                lemma_outside_rect(start, x as int, y as int, rw as int, rh as int, t, j, x0 as int, y0 as int, x1 as int, y1 as int);
            }
        }
        lemma_drawn_pixels(start, *layer, *rect, image@, opacity, mode);
    }
    Some(Rectangle { x: x0 as i32, y: y0 as i32, w: (x1 - x0) as i32, h: (y1 - y0) as i32 })
}

/// Draw the part of the image that lands on the tile in column `tx`, row
/// `ty`; the tile has not been drawn on yet
#[verifier::rlimit(100)]
#[verifier::spinoff_prover]
fn draw_image_tile(
    layer: &mut Layer,
    user: UserID,
    image: &[u32],
    x: i32,
    y: i32,
    rw: i32,
    rh: i32,
    opacity: u8,
    mode: Blendmode,
    can_paint: bool,
    ty: i64,
    tx: i64,
    x0: i64,
    y0: i64,
    x1: i64,
    y1: i64,
    Ghost(start): Ghost<Layer>,
)
    requires
        old(layer).wf(),
        start.tiles_ok(),
        0 <= rw && 0 <= rh,
        image@.len() == rw * rh,
        integer_pixel_mode(mode),
        mode is Normal ==> all_premultiplied(image@, image@.len() as int),
        mode is Behind ==> tiles_premultiplied(start),
        can_paint <==> !(mode is Erase),
        old(layer).width == start.width && old(layer).height == start.height,
        old(layer).tiles@.len() == start.tiles@.len(),
        x + rw <= i32::MAX,
        y + rh <= i32::MAX,
        x0 == (if x < 0 { 0 } else { x as int }),
        y0 == (if y < 0 { 0 } else { y as int }),
        x1 == (if x + rw < start.width { x + rw } else { start.width as int }),
        y1 == (if y + rh < start.height { y + rh } else { start.height as int }),
        0 <= x0 < x1,
        0 <= y0 < y1,
        y0 / 64 <= ty <= (y1 - 1) / 64,
        x0 / 64 <= tx <= (x1 - 1) / 64,
        forall|j: int|
            0 <= j < TILE_LENGTH ==> #[trigger] old(layer).tiles@[ty * start.xtiles() + tx].spec_pixel(j)
                == start.tiles@[ty * start.xtiles() + tx].spec_pixel(j),
    ensures
        final(layer).wf(),
        final(layer).width == old(layer).width && final(layer).height == old(layer).height,
        final(layer).id == old(layer).id && final(layer).opacity == old(layer).opacity,
        final(layer).blendmode == old(layer).blendmode && final(layer).hidden == old(layer).hidden,
        final(layer).sublayers@ == old(layer).sublayers@,
        final(layer).tiles@.len() == old(layer).tiles@.len(),
        forall|t: int|
            0 <= t < old(layer).tiles@.len() && t != ty * start.xtiles() + tx ==> #[trigger] final(layer).tiles@[t]
                == old(layer).tiles@[t],
        forall|j: int|
            0 <= j < TILE_LENGTH ==> #[trigger] final(layer).tiles@[ty * start.xtiles() + tx].spec_pixel(j)
                == drawn_tile_pixel(
                start,
                x as int,
                y as int,
                rw as int,
                rh as int,
                image@,
                opacity,
                mode,
                ty * start.xtiles() + tx,
                j,
            ),
{
    let ghost n = start.xtiles();
    let ghost t0 = ty * n + tx;
    let nx = Tile::div_up(layer.width) as i64;
    let ntiles = layer.tiles.len();
    proof {
        assert(x1 <= start.width && y1 <= start.height);
        assert(tx < n && ty < start.ytiles()) by (nonlinear_arith)
            requires
                tx <= (x1 - 1) / 64,
                ty <= (y1 - 1) / 64,
                x1 <= start.width,
                y1 <= start.height,
                n == (start.width + 63) / 64,
                start.ytiles() == (start.height + 63) / 64,
        ;
        assert(0 <= tx && 0 <= ty);
        assert(0 <= t0 < n * start.ytiles()) by (nonlinear_arith)
            requires
                t0 == ty * n + tx,
                0 <= tx < n,
                0 <= ty < start.ytiles(),
        ;
        super::layer::lemma_grid_index(t0, n, tx as int, ty as int);
    }
    proof {
        assert(start.ytiles() <= 0x400_0000 && n <= 0x400_0000);
        assert(n * start.ytiles() <= 0x10_0000_0000_0000) by (nonlinear_arith)
            requires
                0 <= n <= 0x400_0000,
                0 <= start.ytiles() <= 0x400_0000,
        ;
    }
    let idx = (ty * nx + tx) as usize;
    let blank = match &layer.tiles[idx] {
        Tile::Blank => true,
        Tile::Bitmap(_) => false,
    };
    if !can_paint && blank {
        proof {
            assert forall|j: int| 0 <= j < TILE_LENGTH implies #[trigger] layer.tiles@[t0].spec_pixel(j)
                == drawn_tile_pixel(start, x as int, y as int, rw as int, rh as int, image@, opacity, mode, t0, j) by {
                assert(idx == t0);
                assert(layer.tiles@[t0].spec_pixel(j) == 0);
                assert(old(layer).tiles@[t0].spec_pixel(j) == start.tiles@[t0].spec_pixel(j));
                let px = (t0 % n) * 64 + j % 64;
                let py = (t0 / n) * 64 + j / 64;
                let s = image_at(image@, x as int, y as int, rw as int, px, py);
                assert(erase_pixel(0, s, opacity as int) == 0) by {
                    super::rasterop::lemma_mult_le(ch_a(s) as int, opacity as int);
                    lemma_mult_zero(255 - super::rasterop::mult(ch_a(s) as int, opacity as int));
                }
            }
        }
        return;
    }
    let tile_x = tx * 64;
    let tile_y = ty * 64;
    let cx0 = (if x0 > tile_x { x0 } else { tile_x }) - tile_x;
    let cx1 = (if x1 < tile_x + 64 { x1 } else { tile_x + 64 }) - tile_x;
    let cy0 = (if y0 > tile_y { y0 } else { tile_y }) - tile_y;
    let cy1 = (if y1 < tile_y + 64 { y1 } else { tile_y + 64 }) - tile_y;
    proof {
        assert(x0 / 64 * 64 <= x0 && x0 < x0 / 64 * 64 + 64);
        assert((x1 - 1) / 64 * 64 <= x1 - 1);
        assert(y0 / 64 * 64 <= y0 && y0 < y0 / 64 * 64 + 64);
        assert((y1 - 1) / 64 * 64 <= y1 - 1);
        assert(tile_x <= x1 - 1 && x0 < tile_x + 64) by (nonlinear_arith)
            requires
                x0 / 64 <= tx <= (x1 - 1) / 64,
                tile_x == tx * 64,
                x0 < x0 / 64 * 64 + 64,
                (x1 - 1) / 64 * 64 <= x1 - 1,
        ;
        assert(tile_y <= y1 - 1 && y0 < tile_y + 64) by (nonlinear_arith)
            requires
                y0 / 64 <= ty <= (y1 - 1) / 64,
                tile_y == ty * 64,
                y0 < y0 / 64 * 64 + 64,
                (y1 - 1) / 64 * 64 <= y1 - 1,
        ;
    }
    let sub = Rectangle { x: cx0 as i32, y: cy0 as i32, w: (cx1 - cx0) as i32, h: (cy1 - cy0) as i32 };
    let rows = layer.tiles[idx].rect_iter(&sub);
    let ghost old_tile = layer.tiles@[idx as int];
    let mut out: Vec<Vec<u32>> = Vec::new();
    let mut k: i64 = 0;
    while k < cy1 - cy0
        invariant
            0 <= k <= cy1 - cy0,
            0 <= cx0 < cx1 <= 64,
            0 <= cy0 < cy1 <= 64,
            sub == (Rectangle { x: cx0 as i32, y: cy0 as i32, w: (cx1 - cx0) as i32, h: (cy1 - cy0) as i32 }),
            rows@.len() == sub.h,
            forall|kk: int|
                0 <= kk < sub.h ==> (#[trigger] rows@[kk])@ == Seq::new(
                    sub.w as nat,
                    |xx: int| old_tile.spec_pixel((sub.y + kk) * 64 + sub.x + xx),
                ),
            forall|j: int| 0 <= j < TILE_LENGTH ==> #[trigger] old_tile.spec_pixel(j) == start.tiles@[t0].spec_pixel(j),
            old_tile.wf(),
            0 <= rw && 0 <= rh,
            image@.len() == rw * rh,
            x + rw <= i32::MAX,
            y + rh <= i32::MAX,
            integer_pixel_mode(mode),
            mode is Normal ==> all_premultiplied(image@, image@.len() as int),
            mode is Behind ==> tiles_premultiplied(start),
            0 <= t0 < start.spec_tiles().len(),
            tile_x == tx * 64,
            tile_y == ty * 64,
            x0 == (if x < 0 { 0 } else { x as int }),
            y0 == (if y < 0 { 0 } else { y as int }),
            x1 == (if x + rw < start.width { x + rw } else { start.width as int }),
            y1 == (if y + rh < start.height { y + rh } else { start.height as int }),
            0 <= x0 < x1,
            0 <= y0 < y1,
            tile_x <= x1 - 1 && x0 < tile_x + 64,
            tile_y <= y1 - 1 && y0 < tile_y + 64,
            cx0 == (if x0 > tile_x { x0 as int } else { tile_x as int }) - tile_x,
            cx1 == (if x1 < tile_x + 64 { x1 as int } else { tile_x as int + 64 }) - tile_x,
            cy0 == (if y0 > tile_y { y0 as int } else { tile_y as int }) - tile_y,
            cy1 == (if y1 < tile_y + 64 { y1 as int } else { tile_y as int + 64 }) - tile_y,
            out@.len() == k,
            forall|kk: int|
                0 <= kk < k ==> (#[trigger] out@[kk])@.len() == sub.w && forall|xx: int|
                    0 <= xx < sub.w ==> (#[trigger] out@[kk]@[xx]) == blend_op(
                        mode,
                        rows@[kk]@[xx],
                        image_at(image@, x as int, y as int, rw as int, tile_x + cx0 + xx, tile_y + cy0 + kk),
                        opacity as int,
                    ),
        decreases cy1 - cy0 - k,
    {
        // the image pixels that land on this row of the tile
        let py = tile_y + cy0 + k;
        proof {
            assert(y <= py < y + rh);
            assert(x <= tile_x + cx0 && tile_x + cx1 <= x + rw);
            assert(0 <= (py - y) * rw <= (rh - 1) * rw) by (nonlinear_arith)
                requires
                    0 <= py - y <= rh - 1,
                    0 <= rw,
            ;
            assert((rh - 1) * rw + rw == rh * rw) by (nonlinear_arith);
            assert(rh * rw == rw * rh) by (nonlinear_arith);
            assert(rw * rh <= 0x4000_0000_0000_0000) by (nonlinear_arith)
                requires
                    0 <= rw <= 0x8000_0000,
                    0 <= rh <= 0x8000_0000,
            ;
        }
        let first = (py - y as i64) * (rw as i64) + (tile_x + cx0 - x as i64);
        let ilen = image.len();
        let mut over: Vec<u32> = Vec::new();
        let mut xx: i64 = 0;
        while xx < cx1 - cx0
            invariant
                0 <= xx <= cx1 - cx0,
                0 <= cx0 < cx1 <= 64,
                over@.len() == xx,
                ilen == image@.len(),
                0 <= first,
                first + (cx1 - cx0) <= image@.len(),
                image@.len() <= 0x4000_0000_0000_0000,
                forall|i: int| 0 <= i < xx ==> #[trigger] over@[i] == image@[first + i],
            decreases cx1 - cx0 - xx,
        {
            over.push(image[(first + xx) as usize]);
            xx += 1;
        }
        let ghost base = rows@[k as int]@;
        let mut row: Vec<u32> = rows[k as usize].clone();
        proof {
            assert(row@ =~= base);
            if mode is Behind {
                assert forall|i: int| 0 <= i < over@.len() && i < row@.len() implies super::rasterop::premultiplied(#[trigger] row@[i]) by {
                    assert(row@[i] == old_tile.spec_pixel((sub.y + k) * 64 + sub.x + i));
                }
            }
            if mode is Normal {
                assert forall|i: int| 0 <= i < row@.len() && i < over@.len() implies premultiplied(#[trigger] over@[i]) by {
                    assert(over@[i] == image@[first + i]);
                }
            }
        }
        let done = pixel_blend(row.as_mut_slice(), over.as_slice(), opacity, mode);
        out.push(row);
        proof {
            assert forall|xx: int| 0 <= xx < sub.w implies (#[trigger] out@[k as int]@[xx]) == blend_op(
                mode,
                rows@[k as int]@[xx],
                image_at(image@, x as int, y as int, rw as int, tile_x + cx0 + xx, tile_y + cy0 + k),
                opacity as int,
            ) by {
                assert(over@[xx] == image@[first + xx]);
                assert(first + xx == (tile_y + cy0 + k - y) * rw + (tile_x + cx0 + xx - x));
            }
        }
        k += 1;
    }
    let mut tile = layer.tiles[idx].share();
    layer.tiles.set(idx, Tile::Blank);
    tile.rect_iter_mut(user, &sub, &out);
    layer.tiles.set(idx, tile);
    proof {
        assert forall|j: int| 0 <= j < TILE_LENGTH implies #[trigger] layer.tiles@[t0].spec_pixel(j)
            == drawn_tile_pixel(start, x as int, y as int, rw as int, rh as int, image@, opacity, mode, t0, j) by {
            let px = (t0 % n) * 64 + j % 64;
            let py = (t0 / n) * 64 + j / 64;
            assert(j == (j / 64) * 64 + j % 64);
            assert(0 <= j % 64 < 64 && 0 <= j / 64 < 64);
            if Tile::in_rect(sub, j) {
                let kk = j / 64 - cy0;
                let xx = j % 64 - cx0;
                assert((sub.y + kk) * 64 + sub.x + xx == j);
                assert(tile_x + cx0 + xx == px && tile_y + cy0 + kk == py);
            }
        }
        assert forall|k: int| 0 <= k < layer.sublayers@.len() implies {
            &&& (#[trigger] layer.sublayers@[k]).wf()
            &&& layer.sublayers@[k].width == layer.width
            &&& layer.sublayers@[k].height == layer.height
        } by {
            assert(layer.sublayers@[k] == old(layer).sublayers@[k]);
        }
    }
}


/// Pixel `j` of tile `d` after merging tile `s` onto it (see `Tile::merge`)
pub open spec fn merged_tile_pixel(d: Tile, s: Tile, opacity: u8, mode: Blendmode, j: int) -> u32 {
    if s is Bitmap && (d is Bitmap || !(mode is Erase)) {
        blend_op(mode, d.spec_pixel(j), s.spec_pixel(j), opacity as int)
    } else {
        d.spec_pixel(j)
    }
}

/// Flattening a layer with one visible sublayer merges the sublayer's tile
/// onto the layer's tile as `Tile::merge` does, with the sublayer's own
/// opacity and blending mode
pub proof fn lemma_one_sublayer_merged(l: Layer, t: int, jj: int)
    requires
        l.sublayers@.len() >= 1,
        layer_visible(l.sublayers@[0]),
    ensures
        with_sublayers(l, t, jj, 1) == merged_tile_pixel(
            l.tiles@[t],
            l.sublayers@[0].tiles@[t],
            l.sublayers@[0].opacity,
            l.sublayers@[0].blendmode,
            jj,
        ),
{
    let s = l.sublayers@[0];
    let d = l.tiles@[t];
    assert(with_sublayers(l, t, jj, 0) == d.spec_pixel(jj));
    if s.tiles@[t] is Bitmap && d is Blank && s.blendmode is Erase {
        let src = s.tiles@[t].spec_pixel(jj);
        super::rasterop::lemma_mult_le(ch_a(src) as int, s.opacity as int);
        lemma_mult_zero(255 - super::rasterop::mult(ch_a(src) as int, s.opacity as int));
        assert(erase_pixel(0, src, s.opacity as int) == 0);
    }
}

/// Merge another layer of the same size onto this one, tile by tile, with
/// the other layer's opacity and blending mode (the integer modes). Returns,
/// when the other layer is visible, which of its tiles have a pixel with
/// some opacity; `None` when it is not visible.
pub fn merge(target: &mut Layer, source: &Layer) -> (aoe: Option<Vec<bool>>)
    requires
        old(target).wf(),
        source.wf(),
        old(target).width == source.width && old(target).height == source.height,
        integer_pixel_mode(source.blendmode),
        source.blendmode is Normal ==> tiles_premultiplied(*source),
        source.blendmode is Behind ==> tiles_premultiplied(*old(target)),
    ensures
        final(target).wf(),
        final(target).width == old(target).width && final(target).height == old(target).height,
        final(target).id == old(target).id && final(target).opacity == old(target).opacity,
        final(target).blendmode == old(target).blendmode,
        final(target).sublayers@ == old(target).sublayers@,
        final(target).tiles@.len() == old(target).tiles@.len(),
        forall|t: int, j: int|
            0 <= t < old(target).tiles@.len() && 0 <= j < TILE_LENGTH ==> #[trigger] final(target).tiles@[t].spec_pixel(j)
                == merged_tile_pixel(
                old(target).tiles@[t],
                source.tiles@[t],
                source.opacity,
                source.blendmode,
                j,
            ),
        aoe is Some <==> (!source.hidden && source.opacity > 0),
        aoe matches Some(v) ==> v@.len() == source.tiles@.len() && forall|i: int|
            0 <= i < v@.len() ==> (#[trigger] v@[i] <==> !forall|j: int|
                0 <= j < TILE_LENGTH ==> ch_a(#[trigger] source.tiles@[i].spec_pixel(j)) == 0),
{
    let n = target.tiles.len();
    let mut i: usize = 0;
    while i < n
        invariant
            n == target.tiles@.len(),
            n == old(target).tiles@.len(),
            n == source.tiles@.len(),
            source.wf(),
            target.tiles_ok(),
            target.wf(),
            target.width == old(target).width && target.height == old(target).height,
            target.id == old(target).id && target.opacity == old(target).opacity,
            target.blendmode == old(target).blendmode,
            target.sublayers@ == old(target).sublayers@,
            integer_pixel_mode(source.blendmode),
            source.blendmode is Normal ==> tiles_premultiplied(*source),
            source.blendmode is Behind ==> tiles_premultiplied(*old(target)),
            i <= n,
            forall|t: int| i <= t < n ==> #[trigger] target.tiles@[t] == old(target).tiles@[t],
            forall|t: int, j: int|
                0 <= t < i && 0 <= j < TILE_LENGTH ==> #[trigger] target.tiles@[t].spec_pixel(j)
                    == merged_tile_pixel(
                    old(target).tiles@[t],
                    source.tiles@[t],
                    source.opacity,
                    source.blendmode,
                    j,
                ),
        decreases n - i,
    {
        let mut t = target.tiles[i].share();
        target.tiles.set(i, Tile::Blank);
        proof {
            assert(t == old(target).tiles@[i as int]);
            assert(source.spec_tiles()[i as int].wf());
            if source.blendmode is Behind {
                assert forall|j: int| 0 <= j < TILE_LENGTH implies premultiplied(#[trigger] t.spec_pixel(j)) by {
                    assert(old(target).spec_tiles()[i as int].spec_pixel(j) == t.spec_pixel(j));
                }
            }
            if source.blendmode is Normal {
                assert forall|j: int| 0 <= j < TILE_LENGTH implies premultiplied(#[trigger] source.tiles@[i as int].spec_pixel(j)) by {
                    assert(source.spec_tiles()[i as int].spec_pixel(j) == source.tiles@[i as int].spec_pixel(j));
                }
            }
        }
        t.merge(&source.tiles[i], source.opacity, source.blendmode);
        target.tiles.set(i, t);
        proof {
            assert forall|k: int| 0 <= k < target.sublayers@.len() implies {
                &&& (#[trigger] target.sublayers@[k]).wf()
                &&& target.sublayers@[k].width == target.width
                &&& target.sublayers@[k].height == target.height
            } by {
                assert(target.sublayers@[k] == old(target).sublayers@[k]);
            }
        }
        i += 1;
    }
    if source.is_visible() {
        Some(source.nonblank_tilemap())
    } else {
        None
    }
}

/// Merge the sublayer with the given ID into the layer and remove it;
/// `None` and no change when there is no such sublayer
pub fn merge_sublayer(layer: &mut Layer, sublayer_id: LayerID) -> (aoe: Option<Vec<bool>>)
    requires
        old(layer).wf(),
        forall|i: int|
            0 <= i < old(layer).sublayers@.len() ==> {
                let s = #[trigger] old(layer).sublayers@[i];
                &&& integer_pixel_mode(s.blendmode)
                &&& s.blendmode is Normal ==> tiles_premultiplied(s)
                &&& s.blendmode is Behind ==> tiles_premultiplied(*old(layer))
            },
    ensures
        final(layer).wf(),
        final(layer).width == old(layer).width && final(layer).height == old(layer).height,
        (forall|k: int| 0 <= k < old(layer).sublayers@.len() ==> (#[trigger] old(layer).sublayers@[k]).id != sublayer_id)
            ==> aoe is None && *final(layer) == *old(layer),
        forall|i: int|
            super::layerstack::first_with_id(old(layer).sublayers@, sublayer_id, i) ==> {
                let s = old(layer).sublayers@[i];
                &&& final(layer).sublayers@ == old(layer).sublayers@.remove(i)
                &&& forall|t: int, j: int|
                    0 <= t < old(layer).tiles@.len() && 0 <= j < TILE_LENGTH ==> #[trigger] final(layer).tiles@[t].spec_pixel(j)
                        == merged_tile_pixel(old(layer).tiles@[t], s.tiles@[t], s.opacity, s.blendmode, j)
                &&& (aoe is Some <==> (!s.hidden && s.opacity > 0))
            },
{
    let ghost before = *layer;
    match layer.take_sublayer(sublayer_id) {
        Some(sub) => {
            proof {
                let i = choose|i: int|
                    0 <= i < before.sublayers@.len() && sub == before.sublayers@[i] && sub.id == sublayer_id
                        && layer.sublayers@ == before.sublayers@.remove(i) && forall|k: int|
                        0 <= k < i ==> (#[trigger] before.sublayers@[k]).id != sublayer_id;
                assert forall|i2: int| super::layerstack::first_with_id(before.sublayers@, sublayer_id, i2) implies i2 == i by {
                    if i2 < i {
                        assert(before.sublayers@[i2].id != sublayer_id);
                    } else if i2 > i {
                        assert(before.sublayers@[i].id != sublayer_id);
                    }
                }
                assert(sub.wf());
                assert(tiles_premultiplied(*layer) == tiles_premultiplied(before));
            }
            merge(layer, &sub)
        },
        None => None,
    }
}

/// Remove the sublayer with the given ID without merging it. Returns which
/// of its tiles have a pixel with some opacity; `None` when there is no
/// such sublayer.
pub fn remove_sublayer(layer: &mut Layer, sublayer_id: LayerID) -> (aoe: Option<Vec<bool>>)
    requires
        old(layer).wf(),
    ensures
        final(layer).wf(),
        final(layer).tiles@ == old(layer).tiles@,
        (forall|k: int| 0 <= k < old(layer).sublayers@.len() ==> (#[trigger] old(layer).sublayers@[k]).id != sublayer_id)
            ==> aoe is None && final(layer).sublayers@ == old(layer).sublayers@,
        forall|i: int|
            super::layerstack::first_with_id(old(layer).sublayers@, sublayer_id, i) ==> {
                &&& final(layer).sublayers@ == old(layer).sublayers@.remove(i)
                &&& aoe matches Some(v) && v@.len() == old(layer).sublayers@[i].tiles@.len()
                    && forall|t: int|
                    0 <= t < v@.len() ==> (#[trigger] v@[t] <==> !forall|j: int|
                        0 <= j < TILE_LENGTH ==> ch_a(
                            #[trigger] old(layer).sublayers@[i].tiles@[t].spec_pixel(j),
                        ) == 0)
            },
{
    let ghost before = *layer;
    match layer.take_sublayer(sublayer_id) {
        Some(sub) => {
            proof {
                let i = choose|i: int|
                    0 <= i < before.sublayers@.len() && sub == before.sublayers@[i] && sub.id == sublayer_id
                        && layer.sublayers@ == before.sublayers@.remove(i) && forall|k: int|
                        0 <= k < i ==> (#[trigger] before.sublayers@[k]).id != sublayer_id;
                assert forall|i2: int| super::layerstack::first_with_id(before.sublayers@, sublayer_id, i2) implies i2 == i by {
                    if i2 < i {
                        assert(before.sublayers@[i2].id != sublayer_id);
                    } else if i2 > i {
                        assert(before.sublayers@[i].id != sublayer_id);
                    }
                }
                assert(sub.wf());
            }
            Some(sub.nonblank_tilemap())
        },
        None => None,
    }
}

/// Whether each tile has a pixel with some opacity
pub open spec fn nonblank_map(tiles: Seq<Tile>, v: Seq<bool>) -> bool {
    &&& v.len() == tiles.len()
    &&& forall|i: int|
        0 <= i < v.len() ==> (#[trigger] v[i] <==> !forall|j: int|
            0 <= j < TILE_LENGTH ==> ch_a(#[trigger] tiles[i].spec_pixel(j)) == 0)
}

/// What `change_attributes` does to a layer
pub open spec fn change_attributes_result(old_l: Layer, new_l: Layer, sublayer: LayerID, opacity: u8, blend: Blendmode, censored: bool, fixed: bool, aoe: Seq<bool>) -> bool {
    &&& new_l.wf()
    &&& new_l.tiles@ == old_l.tiles@
    &&& new_l.width == old_l.width && new_l.height == old_l.height
    &&& new_l.id == old_l.id
    &&& sublayer == 0 ==> {
                &&& new_l.blendmode == blend
                &&& new_l.opacity == opacity
                &&& new_l.censored == censored
                &&& new_l.fixed == fixed
                &&& new_l.hidden == old_l.hidden
                &&& new_l.sublayers@ == old_l.sublayers@
                &&& nonblank_map(old_l.tiles@, aoe)
            }
    &&& sublayer != 0 ==> {
                &&& new_l.blendmode == old_l.blendmode
                &&& new_l.opacity == old_l.opacity
                &&& new_l.censored == old_l.censored
                &&& new_l.fixed == old_l.fixed
                &&& exists|i: int|
                    {
                        &&& super::layerstack::first_with_id(new_l.sublayers@, sublayer, i)
                        &&& i <= old_l.sublayers@.len()
                        &&& (#[trigger] new_l.sublayers@[i]).blendmode == blend
                        &&& new_l.sublayers@[i].opacity == opacity
                        &&& nonblank_map(new_l.sublayers@[i].tiles@, aoe)
                        &&& i < old_l.sublayers@.len() ==> {
                            &&& new_l.sublayers@.len() == old_l.sublayers@.len()
                            &&& new_l.sublayers@[i].tiles@ == old_l.sublayers@[i].tiles@
                            &&& forall|k: int|
                                0 <= k < old_l.sublayers@.len() && k != i ==> #[trigger] new_l.sublayers@[k]
                                    == old_l.sublayers@[k]
                        }
                        &&& i == old_l.sublayers@.len() ==> {
                            &&& new_l.sublayers@.len() == i + 1
                            &&& new_l.sublayers@.subrange(0, i) == old_l.sublayers@
                            &&& forall|t: int|
                                0 <= t < new_l.sublayers@[i].tiles@.len() ==> #[trigger] new_l.sublayers@[i].tiles@[t]
                                    == Tile::Blank
                        }
                    }
            }
}

/// Change a layer's attributes, or, when `sublayer` is not 0, the opacity
/// and blending mode of that sublayer (created if missing). Returns which
/// tiles of the changed layer have a pixel with some opacity.
pub fn change_attributes(
    layer: &mut Layer,
    sublayer: LayerID,
    opacity: u8,
    blend: Blendmode,
    censored: bool,
    fixed: bool,
) -> (aoe: Vec<bool>)
    requires
        old(layer).wf(),
    ensures
        change_attributes_result(*old(layer), *final(layer), sublayer, opacity, blend, censored, fixed, aoe@),
{
    if sublayer != 0 {
        let i = layer.sublayer_index(sublayer);
        let ghost mid = *layer;
        let mut sub = layer.sublayers.remove(i);
        proof {
            assert(sub == mid.sublayers@[i as int]);
        }
        let ghost orig = sub;
        sub.blendmode = blend;
        sub.opacity = opacity;
        proof {
            assert(orig.wf());
            assert(sub.tiles_ok());
            assert(sub.sublayers@ == orig.sublayers@);
            assert(sub.wf());
        }
        let map = sub.nonblank_tilemap();
        layer.sublayers.insert(i, sub);
        proof {
            assert(layer.sublayers@ =~= mid.sublayers@.update(i as int, sub));
            assert forall|k: int| 0 <= k < layer.sublayers@.len() implies {
                &&& (#[trigger] layer.sublayers@[k]).wf()
                &&& layer.sublayers@[k].width == layer.width
                &&& layer.sublayers@[k].height == layer.height
            } by {
                if k != i {
                    assert(layer.sublayers@[k] == mid.sublayers@[k]);
                }
            }
            let ii = i as int;
            assert(super::layerstack::first_with_id(layer.sublayers@, sublayer, ii)) by {
                assert forall|k: int| 0 <= k < ii implies (#[trigger] layer.sublayers@[k]).id != sublayer by {
                    assert(layer.sublayers@[k] == mid.sublayers@[k]);
                }
            }
            if ii == old(layer).sublayers@.len() {
                assert(layer.sublayers@.subrange(0, ii) =~= mid.sublayers@.subrange(0, ii));
                assert forall|t: int| 0 <= t < layer.sublayers@[ii].tiles@.len() implies #[trigger] layer.sublayers@[ii].tiles@[t]
                    == Tile::Blank by {
                    assert(mid.sublayers@[ii].tiles@[t] == Tile::Blank);
                }
            } else {
                assert forall|k: int| 0 <= k < old(layer).sublayers@.len() && k != ii implies #[trigger] layer.sublayers@[k]
                    == old(layer).sublayers@[k] by {
                    assert(layer.sublayers@[k] == mid.sublayers@[k]);
                }
            }
            assert(nonblank_map(layer.sublayers@[ii].tiles@, map@));
        }
        map
    } else {
        layer.blendmode = blend;
        layer.opacity = opacity;
        layer.censored = censored;
        layer.fixed = fixed;
        layer.nonblank_tilemap()
    }
}

} // verus!
