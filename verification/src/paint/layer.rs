//! Tiled image layers.
//!
//! A layer is a grid of 64x64 tiles covering its width and height; the tiles
//! at the right and bottom edges may reach past the layer's edges. A layer
//! may hold sublayers of the same size, used for indirect drawing.
use super::blendmode::Blendmode;
use super::rasterop::ch_a;
use super::rasterop::{
    integer_pixel_mode, lemma_blend_keeps_premultiplied, lemma_neutral_blends, premultiplied,
};
use super::rect::Rectangle;
use super::tile::{blend_op, Pixel, Tile, TileData, TILE_LENGTH, TILE_SIZE};
use super::LayerID;
use std::rc::Rc;
use vstd::prelude::*;

verus! {

/// The number of tiles that cover `n` pixels
pub open spec fn tiles_for(n: int) -> int {
    (n + 63) / 64
}

/// The pixel a tile filled by `Tile::new` holds: fully transparent pixels
/// become blank tiles
pub open spec fn fill_pixel(c: u32) -> u32 {
    if ch_a(c) == 0 {
        0
    } else {
        c
    }
}

/// `a` split into quotient and remainder by 64
proof fn lemma_divmod64(a: int, q: int, r: int)
    requires
        0 <= r < 64,
        a == q * 64 + r,
    ensures
        a / 64 == q,
        a % 64 == r,
{
    vstd::arithmetic::div_mod::lemma_fundamental_div_mod_converse(a, 64, q, r);
}

/// `a` split into quotient and remainder by 64
pub(crate) proof fn lemma_divmod64_pub(a: int, q: int, r: int)
    requires
        0 <= r < 64,
        a == q * 64 + r,
    ensures
        a / 64 == q,
        a % 64 == r,
{
    lemma_divmod64(a, q, r);
}

/// Tile index `t` of a grid `n` tiles wide is column `t % n`, row `t / n`
pub(crate) proof fn lemma_grid_index(t: int, n: int, col: int, row: int)
    requires
        0 <= col < n,
        t == row * n + col,
    ensures
        t % n == col,
        t / n == row,
{
    vstd::arithmetic::div_mod::lemma_fundamental_div_mod_converse(t, n, row, col);
}

/// Where pixel `(x, y)` lies in a grid of tiles `n` wide: the tile
/// `(y / 64) * n + x / 64` at index `(y % 64) * 64 + x % 64`
pub(crate) proof fn lemma_pixel_place(x: int, y: int, n: int)
    requires
        0 <= x < 64 * n,
        0 <= y,
    ensures
        ({
            let t = (y / 64) * n + x / 64;
            let j = (y % 64) * 64 + x % 64;
            &&& 0 <= j < 4096
            &&& t % n == x / 64
            &&& t / n == y / 64
            &&& j % 64 == x % 64
            &&& j / 64 == y % 64
            &&& x == (t % n) * 64 + j % 64
            &&& y == (t / n) * 64 + j / 64
            &&& 0 <= t
        }),
{
    let t = (y / 64) * n + x / 64;
    let j = (y % 64) * 64 + x % 64;
    assert(x / 64 < n) by (nonlinear_arith)
        requires
            0 <= x < 64 * n,
    ;
    lemma_grid_index(t, n, x / 64, y / 64);
    lemma_divmod64(j, y % 64, x % 64);
    assert(0 <= (y / 64) * n) by (nonlinear_arith)
        requires
            0 <= y,
            0 < n,
    ;
}

/// A layer is visible when it is not hidden and its opacity is above zero
pub open spec fn layer_visible(l: Layer) -> bool {
    !l.hidden && l.opacity > 0
}

/// Pixel `jj` of tile `t` of a layer with its first `k` sublayers merged
/// onto it, in order (hidden sublayers and blank tiles are skipped)
pub open spec fn with_sublayers(l: Layer, t: int, jj: int, k: nat) -> u32
    decreases k,
{
    if k == 0 || k > l.sublayers@.len() {
        l.tiles@[t].spec_pixel(jj)
    } else {
        let prev = with_sublayers(l, t, jj, (k - 1) as nat);
        let s = l.sublayers@[k - 1];
        if layer_visible(s) && s.tiles@[t] is Bitmap {
            blend_op(s.blendmode, prev, s.tiles@[t].spec_pixel(jj), s.opacity as int)
        } else {
            prev
        }
    }
}

/// Merging the sublayers of a layer onto its tiles depends on its tiles and
/// its sublayers alone: not on the layer's own opacity, blending mode or
/// visibility
pub proof fn lemma_sublayers_ignore_parent(l1: Layer, l2: Layer, t: int, jj: int, k: nat)
    requires
        l1.tiles@ == l2.tiles@,
        l1.sublayers@ == l2.sublayers@,
    ensures
        with_sublayers(l1, t, jj, k) == with_sublayers(l2, t, jj, k),
    decreases k,
{
    if k > 0 {
        lemma_sublayers_ignore_parent(l1, l2, t, jj, (k - 1) as nat);
    }
}

/// Pixel `d` after flattening pixel `jj` of tile `t` of a layer onto it:
/// unchanged under a hidden layer; a layer without sublayers merges its
/// tile (unless blank); one with sublayers merges its tile with the
/// sublayers merged onto it
pub open spec fn flattened_onto(l: Layer, t: int, d: u32, jj: int) -> u32 {
    if !layer_visible(l) {
        d
    } else if l.sublayers@.len() == 0 {
        if l.tiles@[t] is Bitmap {
            blend_op(l.blendmode, d, l.tiles@[t].spec_pixel(jj), l.opacity as int)
        } else {
            d
        }
    } else {
        blend_op(l.blendmode, d, with_sublayers(l, t, jj, l.sublayers@.len()), l.opacity as int)
    }
}

/// Every pixel of the layer and of its sublayers is premultiplied, and
/// they all blend in one of the integer modes
pub open spec fn flattens(l: Layer) -> bool {
    &&& integer_pixel_mode(l.blendmode)
    &&& forall|t: int, j: int|
        0 <= t < l.tiles@.len() && 0 <= j < TILE_LENGTH ==> premultiplied(
            #[trigger] l.tiles@[t].spec_pixel(j),
        )
    &&& forall|k: int|
        0 <= k < l.sublayers@.len() ==> {
            &&& integer_pixel_mode((#[trigger] l.sublayers@[k]).blendmode)
            &&& forall|t: int, j: int|
                0 <= t < l.sublayers@[k].tiles@.len() && 0 <= j < TILE_LENGTH ==> premultiplied(
                    #[trigger] l.sublayers@[k].tiles@[t].spec_pixel(j),
                )
        }
}

pub struct Layer {
    pub id: LayerID,
    pub title: String,
    /// Opacity, 0 (transparent) to 255 (opaque)
    pub opacity: u8,
    pub hidden: bool,
    pub censored: bool,
    pub fixed: bool,
    pub blendmode: Blendmode,
    pub width: u32,
    pub height: u32,
    pub tiles: Vec<Tile>,
    pub sublayers: Vec<Layer>,
}

impl Layer {
    pub open spec fn spec_width(&self) -> u32 {
        self.width
    }

    pub open spec fn spec_height(&self) -> u32 {
        self.height
    }

    pub open spec fn spec_tiles(&self) -> Seq<Tile> {
        self.tiles@
    }

    pub open spec fn spec_sublayers(&self) -> Seq<Layer> {
        self.sublayers@
    }

    /// Number of tile columns
    pub open spec fn xtiles(&self) -> int {
        tiles_for(self.spec_width() as int)
    }

    /// Number of tile rows
    pub open spec fn ytiles(&self) -> int {
        tiles_for(self.spec_height() as int)
    }

    /// The tile grid covers the layer and every tile is well formed
    pub open spec fn tiles_ok(&self) -> bool {
        &&& self.spec_width() + 63 <= u32::MAX
        &&& self.spec_height() + 63 <= u32::MAX
        &&& self.spec_tiles().len() == self.xtiles() * self.ytiles()
        &&& forall|i: int|
            0 <= i < self.spec_tiles().len() ==> (#[trigger] self.spec_tiles()[i]).wf()
    }

    /// Well formed: the tiles cover the layer, and each sublayer is well
    /// formed and of the same size
    pub open spec fn wf(&self) -> bool
        decreases self,
    {
        &&& self.tiles_ok()
        &&& forall|i: int|
            0 <= i < self.sublayers@.len() ==> {
                &&& (#[trigger] self.sublayers@[i]).wf()
                &&& self.sublayers@[i].width == self.width
                &&& self.sublayers@[i].height == self.height
            }
    }

    /// The pixel at `(x, y)`; pixels outside the tile grid are transparent.
    /// Inside the grid but past the layer's edges are the tiles' margins.
    pub open spec fn spec_pixel_at(&self, x: int, y: int) -> u32 {
        if 0 <= x < 64 * self.xtiles() && 0 <= y < 64 * self.ytiles() {
            self.spec_tiles()[(y / 64) * self.xtiles() + x / 64].spec_pixel(
                (y % 64) * 64 + x % 64,
            )
        } else {
            0
        }
    }

    /// Every pixel of every tile is the same
    pub open spec fn is_solid(&self) -> bool {
        forall|t: int, j: int|
            0 <= t < self.spec_tiles().len() && 0 <= j < TILE_LENGTH ==> #[trigger] self.spec_tiles()[t].spec_pixel(j)
                == self.solid_pixel()
    }

    /// The pixel of a solid layer; a layer with no tiles is transparent
    pub open spec fn solid_pixel(&self) -> u32 {
        if self.spec_tiles().len() == 0 {
            0
        } else {
            self.spec_tiles()[0].spec_pixel(0)
        }
    }

    /// What the pixel at `(x, y)` of the old layer becomes when moved:
    /// itself inside the layer, transparent outside it
    pub open spec fn moved_pixel(&self, x: int, y: int) -> u32 {
        if 0 <= x < self.spec_width() && 0 <= y < self.spec_height() {
            self.spec_pixel_at(x, y)
        } else {
            0
        }
    }

    /// Pixel `j` of the tile in column `tx`, row `ty` after moving this
    /// layer by `offx, offy` pixels into a `w` by `h` layer: the moved pixel
    /// inside the new layer, transparent past its edges
    pub open spec fn moved_tile_pixel(
        &self,
        offx: int,
        offy: int,
        w: int,
        h: int,
        tx: int,
        ty: int,
        j: int,
    ) -> u32 {
        let x = tx * 64 + j % 64;
        let y = ty * 64 + j / 64;
        if x < w && y < h {
            self.moved_pixel(x - offx, y - offy)
        } else {
            0
        }
    }

    /// `new` is `old` resized by the given margins: the size grows by them,
    /// the attributes are kept, and each pixel of the new layer is the solid
    /// color of a solid layer, or else the old pixel moved by `left, top`,
    /// transparent where no pixel of the old layer lands
    pub open spec fn resize_of(
        new: Layer,
        old: Layer,
        top: int,
        right: int,
        bottom: int,
        left: int,
    ) -> bool {
        &&& new.spec_width() == left + old.spec_width() + right
        &&& new.spec_height() == top + old.spec_height() + bottom
        &&& new.id == old.id
        &&& new.title@ == old.title@
        &&& new.opacity == old.opacity
        &&& new.hidden == old.hidden
        &&& new.censored == old.censored
        &&& new.fixed == old.fixed
        &&& new.blendmode == old.blendmode
        &&& new.spec_sublayers().len() == old.spec_sublayers().len()
        &&& forall|x: int, y: int|
            0 <= x < new.spec_width() && 0 <= y < new.spec_height() ==> #[trigger] new.spec_pixel_at(
                x,
                y,
            ) == if old.is_solid() {
                fill_pixel(old.solid_pixel())
            } else {
                old.moved_pixel(x - left, y - top)
            }
    }

    /// The layer's width
    pub fn width(&self) -> (w: u32)
        ensures
            w == self.spec_width(),
    {
        self.width
    }

    /// The layer's height
    pub fn height(&self) -> (h: u32)
        ensures
            h == self.spec_height(),
    {
        self.height
    }

    /// The layer's width and height
    pub fn size(&self) -> (s: (u32, u32))
        ensures
            s == (self.spec_width(), self.spec_height()),
    {
        (self.width, self.height)
    }

    /// A layer is visible when it is not hidden and its opacity is above zero
    pub fn is_visible(&self) -> (v: bool)
        ensures
            v == (!self.hidden && self.opacity > 0),
    {
        !self.hidden && self.opacity > 0
    }

    /// Whether a sublayer with the given ID exists
    pub fn has_sublayer(&self, id: LayerID) -> (r: bool)
        ensures
            r == exists|i: int|
                0 <= i < self.spec_sublayers().len() && (#[trigger] self.spec_sublayers()[i]).id
                    == id,
    {
        let mut i: usize = 0;
        while i < self.sublayers.len()
            invariant
                i <= self.sublayers@.len(),
                forall|k: int| 0 <= k < i ==> (#[trigger] self.sublayers@[k]).id != id,
            decreases self.sublayers@.len() - i,
        {
            if self.sublayers[i].id == id {
                assert(self.spec_sublayers()[i as int].id == id);
                return true;
            }
            i += 1;
        }
        false
    }

    /// `n` tiles filled with the given pixel, sharing one pixel buffer
    fn filled_tiles(pixel: u32, n: usize) -> (v: Vec<Tile>)
        ensures
            v@.len() == n,
            forall|i: int| 0 <= i < n ==> (#[trigger] v@[i]).wf(),
            forall|i: int, j: int|
                0 <= i < n && 0 <= j < TILE_LENGTH ==> #[trigger] v@[i].spec_pixel(j)
                    == fill_pixel(pixel),
    {
        let tile = Tile::new(pixel, 0);
        let mut v: Vec<Tile> = Vec::new();
        let mut i: usize = 0;
        while i < n
            invariant
                i <= n,
                v@.len() == i,
                tile.wf(),
                forall|j: int| 0 <= j < TILE_LENGTH ==> #[trigger] tile.spec_pixel(j) == fill_pixel(
                    pixel,
                ),
                forall|k: int| 0 <= k < i ==> #[trigger] v@[k] == tile,
            decreases n - i,
        {
            v.push(tile.share());
            i += 1;
        }
        v
    }

    /// A new layer of the given size filled with the given pixel value (a
    /// fully transparent pixel gives blank tiles)
    pub fn new(id: LayerID, width: u32, height: u32, fill: u32) -> (l: Layer)
        requires
            width + 63 <= u32::MAX,
            height + 63 <= u32::MAX,
            tiles_for(width as int) * tiles_for(height as int) <= usize::MAX,
        ensures
            l.wf(),
            l.id == id,
            l.spec_width() == width,
            l.spec_height() == height,
            l.spec_sublayers().len() == 0,
            l.opacity == 255,
            !l.hidden && !l.censored && !l.fixed,
            l.blendmode == Blendmode::Normal,
            l.title@.len() == 0,
            forall|x: int, y: int|
                0 <= x < 64 * l.xtiles() && 0 <= y < 64 * l.ytiles() ==> #[trigger] l.spec_pixel_at(
                    x,
                    y,
                ) == fill_pixel(fill),
    {
        let n = Tile::div_up(width) as usize * Tile::div_up(height) as usize;
        let tiles = Layer::filled_tiles(fill, n);
        let l = Layer {
            id,
            title: String::new(),
            opacity: 255,
            hidden: false,
            censored: false,
            fixed: false,
            blendmode: Blendmode::Normal,
            width,
            height,
            tiles,
            sublayers: Vec::new(),
        };
        assert forall|x: int, y: int|
            0 <= x < 64 * l.xtiles() && 0 <= y < 64 * l.ytiles() implies #[trigger] l.spec_pixel_at(
                x,
                y,
            ) == fill_pixel(fill) by {
            lemma_pixel_place(x, y, l.xtiles());
            assert((y / 64) < l.ytiles()) by (nonlinear_arith)
                requires
                    0 <= y < 64 * l.ytiles(),
            ;
            assert((y / 64) * l.xtiles() + x / 64 < l.xtiles() * l.ytiles()) by (nonlinear_arith)
                requires
                    0 <= x / 64 < l.xtiles(),
                    0 <= y / 64 < l.ytiles(),
            ;
        }
        l
    }

    /// A layer (ID 0) holding an image of premultiplied pixels, row by row:
    /// each pixel of the layer is the image's pixel at its place
    pub fn from_image(pixels: &[u32], width: u32, height: u32) -> (l: Layer)
        requires
            pixels@.len() == width * height,
            width <= i32::MAX,
            height <= i32::MAX,
            tiles_for(width as int) * tiles_for(height as int) <= usize::MAX,
        ensures
            l.wf(),
            l.id == 0,
            l.spec_width() == width && l.spec_height() == height,
            l.spec_sublayers().len() == 0,
            forall|x: int, y: int|
                0 <= x < width && 0 <= y < height ==> #[trigger] l.spec_pixel_at(x, y)
                    == pixels@[y * width + x],
    {
        let mut layer = Layer::new(0, width, height, 0);
        let rect = Rectangle { x: 0, y: 0, w: width as i32, h: height as i32 };
        let ghost start = layer;
        super::editlayer::draw_image(&mut layer, 0, pixels, &rect, 255, Blendmode::Replace);
        proof {
            assert forall|x: int, y: int| 0 <= x < width && 0 <= y < height implies #[trigger] layer.spec_pixel_at(x, y)
                == pixels@[y * width + x] by {
                Layer::lemma_place_in(start, x, y);
                lemma_neutral_blends(0, pixels@[y * width + x], 0);
            }
        }
        layer
    }

    /// The pixel at `(x, y)` as bytes (blue, green, red, alpha); past the
    /// layer's edges, inside its last tiles, the tiles' margins
    pub fn pixel_at(&self, x: u32, y: u32) -> (p: Pixel)
        requires
            self.wf(),
            x < 64 * self.xtiles(),
            y < 64 * self.ytiles(),
        ensures
            p@ == super::tile::pixel_bytes(self.spec_pixel_at(x as int, y as int)),
    {
        let ti = x / TILE_SIZE;
        let tj = y / TILE_SIZE;
        let xt = Tile::div_up(self.width);
        let n = self.tiles.len();
        proof {
            lemma_pixel_place(x as int, y as int, xt as int);
            assert(tj < self.ytiles()) by (nonlinear_arith)
                requires
                    tj == y / 64,
                    y < 64 * self.ytiles(),
            ;
            assert(tj * xt + ti < xt * self.ytiles()) by (nonlinear_arith)
                requires
                    ti < xt,
                    tj < self.ytiles(),
            ;
        }
        let idx = tj as usize * xt as usize + ti as usize;
        self.tiles[idx].pixel_at(x - ti * TILE_SIZE, y - tj * TILE_SIZE)
    }

    /// The layer's solid color, if every pixel of every tile is the same;
    /// a layer without tiles is transparent
    pub fn solid_color(&self) -> (c: Option<u32>)
        requires
            self.wf(),
        ensures
            c is Some <==> self.is_solid(),
            c is Some ==> c->0 == self.solid_pixel(),
    {
        if self.tiles.len() == 0 {
            return Some(0);
        }
        let c = self.tiles[0].solid_color();
        let first = match c {
            Some(p) => p,
            None => {
                assert(!self.is_solid()) by {
                    let j = choose|j: int|
                        0 <= j < TILE_LENGTH && #[trigger] self.spec_tiles()[0].spec_pixel(j)
                            != self.spec_tiles()[0].spec_pixel(0);
                    assert(self.spec_tiles()[0].spec_pixel(j) != self.solid_pixel());
                }
                return None;
            },
        };
        let mut i: usize = 1;
        while i < self.tiles.len()
            invariant
                1 <= i <= self.tiles@.len(),
                self.wf(),
                first == self.solid_pixel(),
                forall|t: int, j: int|
                    0 <= t < i && 0 <= j < TILE_LENGTH ==> #[trigger] self.spec_tiles()[t].spec_pixel(j)
                        == first,
            decreases self.tiles@.len() - i,
        {
            match self.tiles[i].solid_color() {
                Some(p) => {
                    if p != first {
                        assert(self.spec_tiles()[i as int].spec_pixel(0) != self.solid_pixel());
                        return None;
                    }
                },
                None => {
                    assert(!self.is_solid()) by {
                        let j = choose|j: int|
                            0 <= j < TILE_LENGTH && #[trigger] self.spec_tiles()[i as int].spec_pixel(j)
                                != self.spec_tiles()[i as int].spec_pixel(0);
                        if self.spec_tiles()[i as int].spec_pixel(0) == self.solid_pixel() {
                            assert(self.spec_tiles()[i as int].spec_pixel(j) != self.solid_pixel());
                        }
                    }
                    return None;
                },
            }
            i += 1;
        }
        Some(first)
    }

    /// The tile in column `tx`, row `ty` of this layer moved by `offx, offy`
    /// pixels into a `w` by `h` layer, built pixel by pixel. It stays blank
    /// unless a bitmap tile of this layer contributes a pixel to it; it is
    /// then tagged with the user of the last such tile.
    fn moved_tile(&self, offx: i64, offy: i64, w: u32, h: u32, tx: usize, ty: usize) -> (tile:
        Tile)
        requires
            self.wf(),
            -0x1_0000_0000 <= offx <= 0x1_0000_0000,
            -0x1_0000_0000 <= offy <= 0x1_0000_0000,
            tx <= 0x400_0000,
            ty <= 0x400_0000,
        ensures
            tile.wf(),
            forall|j: int|
                0 <= j < TILE_LENGTH ==> #[trigger] tile.spec_pixel(j) == self.moved_tile_pixel(
                    offx as int,
                    offy as int,
                    w as int,
                    h as int,
                    tx as int,
                    ty as int,
                    j,
                ),
    {
        let oxt = Tile::div_up(self.width) as i64;
        let oyt = Tile::div_up(self.height) as i64;
        let ntiles = self.tiles.len();
        let mut pixels: Vec<u32> = Vec::new();
        let mut tag: Option<u8> = None;
        let mut j: usize = 0;
        while j < TILE_LENGTH
            invariant
                self.wf(),
                ntiles == self.tiles@.len(),
                oxt == self.xtiles(),
                oyt == self.ytiles(),
                -0x1_0000_0000 <= offx <= 0x1_0000_0000,
                -0x1_0000_0000 <= offy <= 0x1_0000_0000,
                tx <= 0x400_0000,
                ty <= 0x400_0000,
                j <= TILE_LENGTH,
                pixels@.len() == j,
                forall|k: int|
                    0 <= k < j ==> #[trigger] pixels@[k] == self.moved_tile_pixel(
                        offx as int,
                        offy as int,
                        w as int,
                        h as int,
                        tx as int,
                        ty as int,
                        k,
                    ),
                tag is None ==> forall|k: int| 0 <= k < j ==> #[trigger] pixels@[k] == 0,
            decreases TILE_LENGTH - j,
        {
            let x: i64 = tx as i64 * 64 + (j % 64) as i64;
            let y: i64 = ty as i64 * 64 + (j / 64) as i64;
            let mut value: u32 = 0;
            if x < w as i64 && y < h as i64 {
                let sx = x - offx;
                let sy = y - offy;
                if 0 <= sx && sx < self.width as i64 && 0 <= sy && sy < self.height as i64 {
                    let ux = sx as u64;
                    let uy = sy as u64;
                    proof {
                        Layer::lemma_place_in(*self, sx as int, sy as int);
                        assert((uy / 64) * (oxt as u64) == (sy as int / 64) * self.xtiles())
                            by (nonlinear_arith)
                            requires
                                (uy / 64) as int == sy as int / 64,
                                oxt as int == self.xtiles(),
                        ;
                        assert((uy / 64) * (oxt as u64) <= 0x10_0000_0000_0000) by (nonlinear_arith)
                            requires
                                0 <= uy / 64 <= 0x400_0000,
                                0 <= oxt <= 0x400_0000,
                        ;
                    }
                    let st = ((uy / 64) * (oxt as u64) + ux / 64) as usize;
                    let k = ((uy % 64) * 64 + ux % 64) as usize;
                    let src = &self.tiles[st];
                    value = src.pixel_value(k);
                    match src {
                        Tile::Bitmap(d) => {
                            tag = Some(d.last_touched_by);
                        },
                        Tile::Blank => {},
                    }
                }
            }
            assert(value == self.moved_tile_pixel(
                offx as int,
                offy as int,
                w as int,
                h as int,
                tx as int,
                ty as int,
                j as int,
            ));
            pixels.push(value);
            j += 1;
        }
        let ghost pix = pixels@;
        let tile = if let Some(u) = tag {
            Tile::Bitmap(Rc::new(TileData { pixels, last_touched_by: u }))
        } else {
            Tile::Blank
        };
        proof {
            assert forall|k: int| 0 <= k < TILE_LENGTH implies #[trigger] tile.spec_pixel(k)
                == self.moved_tile_pixel(
                offx as int,
                offy as int,
                w as int,
                h as int,
                tx as int,
                ty as int,
                k,
            ) by {
                assert(pix[k] == self.moved_tile_pixel(
                    offx as int,
                    offy as int,
                    w as int,
                    h as int,
                    tx as int,
                    ty as int,
                    k,
                ));
            }
        }
        tile
    }

    /// The tile in column `tx`, row `ty` of this layer moved by `offx, offy`
    /// pixels, both multiples of the tile size, into a `w` by `h` layer: the
    /// old tile that lands there when it lies whole inside the old layer's
    /// edges, a blank one when no old tile lands there, else one rebuilt
    /// pixel by pixel. Its pixels inside the new layer are the moved pixels.
    fn aligned_tile(&self, offx: i64, offy: i64, w: u32, h: u32, tx: usize, ty: usize) -> (tile:
        Tile)
        requires
            self.wf(),
            -0x1_0000_0000 <= offx <= 0x1_0000_0000,
            -0x1_0000_0000 <= offy <= 0x1_0000_0000,
            offx % 64 == 0,
            offy % 64 == 0,
            tx <= 0x400_0000,
            ty <= 0x400_0000,
        ensures
            tile.wf(),
            forall|j: int|
                0 <= j < TILE_LENGTH && tx * 64 + j % 64 < w && ty * 64 + j / 64 < h
                    ==> #[trigger] tile.spec_pixel(j) == self.moved_tile_pixel(
                    offx as int,
                    offy as int,
                    w as int,
                    h as int,
                    tx as int,
                    ty as int,
                    j,
                ),
    {
        let oxt = Tile::div_up(self.width) as u64;
        let oyt = Tile::div_up(self.height) as u64;
        // where the tile's corner lies in the old layer
        let px = tx as i64 * 64 - offx;
        let py = ty as i64 * 64 - offy;
        if 0 <= px && 0 <= py && px + 64 <= self.width as i64 && py + 64 <= self.height as i64 {
            let sx = (px as u64) / 64;
            let sy = (py as u64) / 64;
            proof {
                assert(px % 64 == 0 && py % 64 == 0) by (nonlinear_arith)
                    requires
                        px == tx * 64 - offx,
                        py == ty * 64 - offy,
                        offx % 64 == 0,
                        offy % 64 == 0,
                ;
                assert(px == sx * 64 && py == sy * 64);
                assert(sx < oxt && sy < oyt) by (nonlinear_arith)
                    requires
                        (sx + 1) * 64 <= self.spec_width(),
                        (sy + 1) * 64 <= self.spec_height(),
                        oxt == (self.spec_width() + 63) / 64,
                        oyt == (self.spec_height() + 63) / 64,
                ;
                assert(sy * oxt + sx < oxt * oyt) by (nonlinear_arith)
                    requires
                        sx < oxt,
                        sy < oyt,
                ;
                assert(oxt * oyt <= 0x10_0000_0000_0000) by (nonlinear_arith)
                    requires
                        oxt <= 0x400_0000,
                        oyt <= 0x400_0000,
                ;
            }
            let ntiles = self.tiles.len();
            let k = (sy * oxt + sx) as usize;
            let shared = self.tiles[k].share();
            proof {
                assert forall|j: int|
                    0 <= j < TILE_LENGTH && tx * 64 + j % 64 < w && ty * 64 + j / 64
                        < h implies #[trigger] shared.spec_pixel(j) == self.moved_tile_pixel(
                    offx as int,
                    offy as int,
                    w as int,
                    h as int,
                    tx as int,
                    ty as int,
                    j,
                ) by {
                    Layer::lemma_whole_tile_pixel(*self, sx as int, sy as int, j);
                }
            }
            shared
        } else if -64 < px && px < self.width as i64 && -64 < py && py < self.height as i64 {
            self.moved_tile(offx, offy, w, h, tx, ty)
        } else {
            Tile::Blank
        }
    }

    /// The tiles of this layer moved by `offx, offy` pixels, both multiples
    /// of the tile size, into a `w` by `h` grid. An old tile that lands
    /// whole inside the old layer's edges is shared; one that reaches past
    /// them is rebuilt so that only the old layer's pixels move; the rest
    /// are blank.
    fn resized_fast(&self, offx: i64, offy: i64, w: u32, h: u32) -> (v: Vec<Tile>)
        requires
            self.wf(),
            w + 63 <= u32::MAX,
            h + 63 <= u32::MAX,
            tiles_for(w as int) * tiles_for(h as int) <= usize::MAX,
            -0x1_0000_0000 <= offx <= 0x1_0000_0000,
            -0x1_0000_0000 <= offy <= 0x1_0000_0000,
            offx % 64 == 0,
            offy % 64 == 0,
        ensures
            v@.len() == tiles_for(w as int) * tiles_for(h as int),
            forall|t: int| 0 <= t < v@.len() ==> (#[trigger] v@[t]).wf(),
            forall|t: int, j: int|
                0 <= t < v@.len() && 0 <= j < TILE_LENGTH && (t % tiles_for(w as int)) * 64 + j
                    % 64 < w && (t / tiles_for(w as int)) * 64 + j / 64 < h
                    ==> #[trigger] v@[t].spec_pixel(j) == self.moved_tile_pixel(
                    offx as int,
                    offy as int,
                    w as int,
                    h as int,
                    t % tiles_for(w as int),
                    t / tiles_for(w as int),
                    j,
                ),
    {
        let nxt = Tile::div_up(w) as usize;
        let nyt = Tile::div_up(h) as usize;
        let ghost n = tiles_for(w as int);
        let mut v: Vec<Tile> = Vec::new();
        let mut ty: usize = 0;
        while ty < nyt
            invariant
                self.wf(),
                nxt == n,
                n == tiles_for(w as int),
                nyt == tiles_for(h as int),
                w + 63 <= u32::MAX,
                h + 63 <= u32::MAX,
                nxt * nyt <= usize::MAX,
                -0x1_0000_0000 <= offx <= 0x1_0000_0000,
                -0x1_0000_0000 <= offy <= 0x1_0000_0000,
                offx % 64 == 0,
                offy % 64 == 0,
                ty <= nyt,
                v@.len() == ty * nxt,
                forall|t: int| 0 <= t < v@.len() ==> (#[trigger] v@[t]).wf(),
                forall|t: int, j: int|
                    0 <= t < v@.len() && 0 <= j < TILE_LENGTH && (t % n) * 64 + j % 64 < w && (t
                        / n) * 64 + j / 64 < h ==> #[trigger] v@[t].spec_pixel(j)
                        == self.moved_tile_pixel(
                        offx as int,
                        offy as int,
                        w as int,
                        h as int,
                        t % n,
                        t / n,
                        j,
                    ),
            decreases nyt - ty,
        {
            let mut tx: usize = 0;
            while tx < nxt
                invariant
                    self.wf(),
                    nxt == n,
                    n == tiles_for(w as int),
                    nyt == tiles_for(h as int),
                    w + 63 <= u32::MAX,
                    h + 63 <= u32::MAX,
                    nxt * nyt <= usize::MAX,
                    -0x1_0000_0000 <= offx <= 0x1_0000_0000,
                    -0x1_0000_0000 <= offy <= 0x1_0000_0000,
                    offx % 64 == 0,
                    offy % 64 == 0,
                    ty < nyt,
                    tx <= nxt,
                    v@.len() == ty * nxt + tx,
                    forall|t: int| 0 <= t < v@.len() ==> (#[trigger] v@[t]).wf(),
                    forall|t: int, j: int|
                        0 <= t < v@.len() && 0 <= j < TILE_LENGTH && (t % n) * 64 + j % 64 < w && (t
                            / n) * 64 + j / 64 < h ==> #[trigger] v@[t].spec_pixel(j)
                            == self.moved_tile_pixel(
                            offx as int,
                            offy as int,
                            w as int,
                            h as int,
                            t % n,
                            t / n,
                            j,
                        ),
                decreases nxt - tx,
            {
                let ghost t = ty * nxt + tx;
                proof {
                    lemma_grid_index(t, nxt as int, tx as int, ty as int);
                    assert(ty * nxt + tx < nxt * nyt) by (nonlinear_arith)
                        requires
                            tx < nxt,
                            ty < nyt,
                    ;
                }
                let tile = self.aligned_tile(offx, offy, w, h, tx, ty);
                v.push(tile);
                proof {
                    assert((ty * nxt + tx) + 1 == ty * nxt + (tx + 1));
                }
                tx += 1;
            }
            proof {
                assert(ty * nxt + nxt == (ty + 1) * nxt) by (nonlinear_arith);
            }
            ty += 1;
        }
        proof {
            assert(nyt * nxt == nxt * nyt) by (nonlinear_arith);
        }
        v
    }

    /// Pixel `j` of the old tile in column `sx`, row `sy`, lying whole inside
    /// the layer, is that pixel moved by the tile's offset
    proof fn lemma_whole_tile_pixel(l: Layer, sx: int, sy: int, j: int)
        requires
            l.tiles_ok(),
            0 <= sx,
            0 <= sy,
            (sx + 1) * 64 <= l.spec_width(),
            (sy + 1) * 64 <= l.spec_height(),
            0 <= j < TILE_LENGTH,
        ensures
            sy * l.xtiles() + sx < l.spec_tiles().len(),
            l.moved_pixel(sx * 64 + j % 64, sy * 64 + j / 64) == l.spec_tiles()[sy
                * l.xtiles() + sx].spec_pixel(j),
    {
        let x = sx * 64 + j % 64;
        let y = sy * 64 + j / 64;
        Layer::lemma_place_in(l, x, y);
        lemma_divmod64(x, sx, j % 64);
        lemma_divmod64(y, sy, j / 64);
        assert(j == (j / 64) * 64 + j % 64);
    }

    /// The tiles of this layer moved by `offx, offy` pixels into a `w` by
    /// `h` grid, each rebuilt pixel by pixel
    fn resized_slow(&self, offx: i64, offy: i64, w: u32, h: u32) -> (v: Vec<Tile>)
        requires
            self.wf(),
            w + 63 <= u32::MAX,
            h + 63 <= u32::MAX,
            tiles_for(w as int) * tiles_for(h as int) <= usize::MAX,
            -0x1_0000_0000 <= offx <= 0x1_0000_0000,
            -0x1_0000_0000 <= offy <= 0x1_0000_0000,
        ensures
            v@.len() == tiles_for(w as int) * tiles_for(h as int),
            forall|t: int| 0 <= t < v@.len() ==> (#[trigger] v@[t]).wf(),
            forall|t: int, j: int|
                0 <= t < v@.len() && 0 <= j < TILE_LENGTH ==> #[trigger] v@[t].spec_pixel(j)
                    == self.moved_tile_pixel(
                    offx as int,
                    offy as int,
                    w as int,
                    h as int,
                    t % tiles_for(w as int),
                    t / tiles_for(w as int),
                    j,
                ),
    {
        let nxt = Tile::div_up(w) as usize;
        let nyt = Tile::div_up(h) as usize;
        let ghost n = tiles_for(w as int);
        let mut v: Vec<Tile> = Vec::new();
        let mut ty: usize = 0;
        while ty < nyt
            invariant
                self.wf(),
                nxt == n,
                n == tiles_for(w as int),
                nyt == tiles_for(h as int),
                w + 63 <= u32::MAX,
                h + 63 <= u32::MAX,
                nxt * nyt <= usize::MAX,
                -0x1_0000_0000 <= offx <= 0x1_0000_0000,
                -0x1_0000_0000 <= offy <= 0x1_0000_0000,
                ty <= nyt,
                v@.len() == ty * nxt,
                forall|t: int| 0 <= t < v@.len() ==> (#[trigger] v@[t]).wf(),
                forall|t: int, j: int|
                    0 <= t < v@.len() && 0 <= j < TILE_LENGTH ==> #[trigger] v@[t].spec_pixel(j)
                        == self.moved_tile_pixel(
                        offx as int,
                        offy as int,
                        w as int,
                        h as int,
                        t % n,
                        t / n,
                        j,
                    ),
            decreases nyt - ty,
        {
            let mut tx: usize = 0;
            while tx < nxt
                invariant
                    self.wf(),
                    nxt == n,
                    n == tiles_for(w as int),
                    nyt == tiles_for(h as int),
                    w + 63 <= u32::MAX,
                    h + 63 <= u32::MAX,
                    nxt * nyt <= usize::MAX,
                    -0x1_0000_0000 <= offx <= 0x1_0000_0000,
                    -0x1_0000_0000 <= offy <= 0x1_0000_0000,
                    ty < nyt,
                    tx <= nxt,
                    v@.len() == ty * nxt + tx,
                    forall|t: int| 0 <= t < v@.len() ==> (#[trigger] v@[t]).wf(),
                    forall|t: int, j: int|
                        0 <= t < v@.len() && 0 <= j < TILE_LENGTH ==> #[trigger] v@[t].spec_pixel(
                            j,
                        ) == self.moved_tile_pixel(
                            offx as int,
                            offy as int,
                            w as int,
                            h as int,
                            t % n,
                            t / n,
                            j,
                        ),
                decreases nxt - tx,
            {
                let ghost t = ty * nxt + tx;
                proof {
                    lemma_grid_index(t, nxt as int, tx as int, ty as int);
                    assert(ty * nxt + tx < nxt * nyt) by (nonlinear_arith)
                        requires
                            tx < nxt,
                            ty < nyt,
                    ;
                }
                let tile = self.moved_tile(offx, offy, w, h, tx, ty);
                v.push(tile);
                proof {
                    assert((ty * nxt + tx) + 1 == ty * nxt + (tx + 1));
                }
                tx += 1;
            }
            proof {
                assert(ty * nxt + nxt == (ty + 1) * nxt) by (nonlinear_arith);
            }
            ty += 1;
        }
        proof {
            assert(nyt * nxt == nxt * nyt) by (nonlinear_arith);
        }
        v
    }

    /// Where pixel `(x, y)` of a layer lies in its tiles
    proof fn lemma_place_in(r: Layer, x: int, y: int)
        requires
            r.tiles_ok(),
            0 <= x < r.spec_width(),
            0 <= y < r.spec_height(),
        ensures
            x < 64 * r.xtiles(),
            y < 64 * r.ytiles(),
            ({
                let t = (y / 64) * r.xtiles() + x / 64;
                let j = (y % 64) * 64 + x % 64;
                &&& 0 <= t < r.spec_tiles().len()
                &&& 0 <= j < 4096
                &&& t % r.xtiles() == x / 64
                &&& t / r.xtiles() == y / 64
                &&& x == (t % r.xtiles()) * 64 + j % 64
                &&& y == (t / r.xtiles()) * 64 + j / 64
            }),
    {
        let n = r.xtiles();
        let m = r.ytiles();
        assert(x < 64 * n && y < 64 * m) by (nonlinear_arith)
            requires
                x < r.spec_width(),
                y < r.spec_height(),
                n == (r.spec_width() + 63) / 64,
                m == (r.spec_height() + 63) / 64,
        ;
        lemma_pixel_place(x, y, n);
        assert(y / 64 < m) by (nonlinear_arith)
            requires
                0 <= y < 64 * m,
        ;
        assert((y / 64) * n + x / 64 < n * m) by (nonlinear_arith)
            requires
                0 <= x / 64 < n,
                0 <= y / 64 < m,
        ;
    }

    /// Tiles all filled with one pixel give that pixel everywhere
    proof fn lemma_solid_pixels(r: Layer, c: u32)
        requires
            r.tiles_ok(),
            forall|t: int, j: int|
                0 <= t < r.spec_tiles().len() && 0 <= j < TILE_LENGTH ==> #[trigger] r.spec_tiles()[t].spec_pixel(j)
                    == fill_pixel(c),
        ensures
            forall|x: int, y: int|
                0 <= x < r.spec_width() && 0 <= y < r.spec_height() ==> #[trigger] r.spec_pixel_at(
                    x,
                    y,
                ) == fill_pixel(c),
    {
        assert forall|x: int, y: int| 0 <= x < r.spec_width() && 0 <= y < r.spec_height() implies #[trigger] r.spec_pixel_at(x, y) == fill_pixel(c) by {
            Layer::lemma_place_in(r, x, y);
        }
    }

    /// Tiles whose pixels inside the layer are those moved by `left, top`
    /// give the moved pixels everywhere in the layer
    proof fn lemma_moved_pixels(old: Layer, r: Layer, left: int, top: int)
        requires
            r.tiles_ok(),
            forall|t: int, j: int|
                0 <= t < r.spec_tiles().len() && 0 <= j < TILE_LENGTH && (t % r.xtiles()) * 64 + j
                    % 64 < r.spec_width() && (t / r.xtiles()) * 64 + j / 64 < r.spec_height()
                    ==> #[trigger] r.spec_tiles()[t].spec_pixel(j) == old.moved_tile_pixel(
                    left,
                    top,
                    r.spec_width() as int,
                    r.spec_height() as int,
                    t % r.xtiles(),
                    t / r.xtiles(),
                    j,
                ),
        ensures
            forall|x: int, y: int|
                0 <= x < r.spec_width() && 0 <= y < r.spec_height() ==> #[trigger] r.spec_pixel_at(
                    x,
                    y,
                ) == old.moved_pixel(x - left, y - top),
    {
        assert forall|x: int, y: int| 0 <= x < r.spec_width() && 0 <= y < r.spec_height() implies #[trigger] r.spec_pixel_at(x, y) == old.moved_pixel(x - left, y - top) by {
            Layer::lemma_place_in(r, x, y);
        }
    }

    /// This layer with its size changed by the given margins on each side
    /// (negative margins crop). A solid layer stays filled with its color.
    /// Otherwise the content moves by `left, top` and the areas it leaves
    /// uncovered are transparent; when both offsets are multiples of the
    /// tile size the tiles that lie whole inside the layer are shared, else
    /// the tiles are rebuilt pixel by pixel. Sublayers are resized the same
    /// way.
    #[verifier::rlimit(80)]
    #[verifier::spinoff_prover]
    pub fn resized(&self, top: i32, right: i32, bottom: i32, left: i32) -> (r: Layer)
        requires
            self.wf(),
            self.spec_width() <= i32::MAX,
            self.spec_height() <= i32::MAX,
            i32::MIN <= left + self.spec_width() <= i32::MAX,
            i32::MIN <= top + self.spec_height() <= i32::MAX,
            0 <= left + self.spec_width() + right <= i32::MAX,
            0 <= top + self.spec_height() + bottom <= i32::MAX,
            tiles_for(left + self.spec_width() + right) * tiles_for(top + self.spec_height() + bottom)
                <= usize::MAX,
        ensures
            r.wf(),
            Layer::resize_of(r, *self, top as int, right as int, bottom as int, left as int),
            forall|i: int|
                0 <= i < self.spec_sublayers().len() ==> Layer::resize_of(
                    #[trigger] r.spec_sublayers()[i],
                    self.spec_sublayers()[i],
                    top as int,
                    right as int,
                    bottom as int,
                    left as int,
                ),
        decreases self,
    {
        let new_width = (left as i64 + self.width as i64 + right as i64) as u32;
        let new_height = (top as i64 + self.height as i64 + bottom as i64) as u32;
        let nxt = Tile::div_up(new_width) as usize;
        let nyt = Tile::div_up(new_height) as usize;
        let ghost n = nxt as int;
        let aligned = (left as i64) % 64 == 0 && (top as i64) % 64 == 0;
        let tiles = match self.solid_color() {
            Some(c) => Layer::filled_tiles(c, nxt * nyt),
            None => {
                if aligned {
                    self.resized_fast(left as i64, top as i64, new_width, new_height)
                } else {
                    self.resized_slow(left as i64, top as i64, new_width, new_height)
                }
            },
        };
        let mut subs: Vec<Layer> = Vec::new();
        let mut i: usize = 0;
        while i < self.sublayers.len()
            invariant
                self.wf(),
                self.spec_width() <= i32::MAX,
                self.spec_height() <= i32::MAX,
                i32::MIN <= left + self.spec_width() <= i32::MAX,
                i32::MIN <= top + self.spec_height() <= i32::MAX,
                0 <= left + self.spec_width() + right <= i32::MAX,
                0 <= top + self.spec_height() + bottom <= i32::MAX,
                tiles_for(left + self.spec_width() + right) * tiles_for(
                    top + self.spec_height() + bottom,
                ) <= usize::MAX,
                new_width == left + self.spec_width() + right,
                new_height == top + self.spec_height() + bottom,
                i <= self.sublayers@.len(),
                subs@.len() == i,
                forall|k: int|
                    0 <= k < i ==> {
                        &&& (#[trigger] subs@[k]).wf()
                        &&& subs@[k].width == new_width
                        &&& subs@[k].height == new_height
                        &&& Layer::resize_of(
                            subs@[k],
                            self.sublayers@[k],
                            top as int,
                            right as int,
                            bottom as int,
                            left as int,
                        )
                    },
            decreases self.sublayers@.len() - i,
        {
            let sub = self.sublayers[i].resized(top, right, bottom, left);
            subs.push(sub);
            i += 1;
        }
        let r = Layer {
            id: self.id,
            title: self.title.clone(),
            opacity: self.opacity,
            hidden: self.hidden,
            censored: self.censored,
            fixed: self.fixed,
            blendmode: self.blendmode,
            width: new_width,
            height: new_height,
            tiles,
            sublayers: subs,
        };
        proof {
            if self.is_solid() {
                Layer::lemma_solid_pixels(r, self.solid_pixel());
            } else {
                Layer::lemma_moved_pixels(*self, r, left as int, top as int);
            }
            assert forall|i: int| 0 <= i < r.sublayers@.len() implies {
                &&& (#[trigger] r.sublayers@[i]).wf()
                &&& r.sublayers@[i].width == r.width
                &&& r.sublayers@[i].height == r.height
            } by {
                assert(subs@[i].wf());
            }
        }
        r
    }

    /// The tile in column `i`, row `j`
    pub fn tile(&self, i: u32, j: u32) -> (t: &Tile)
        requires
            self.wf(),
            i < self.xtiles(),
            j < self.ytiles(),
        ensures
            *t == self.spec_tiles()[j * self.xtiles() + i],
            t.wf(),
    {
        let xt = Tile::div_up(self.width);
        let n = self.tiles.len();
        proof {
            assert(j * xt + i < xt * self.ytiles()) by (nonlinear_arith)
                requires
                    i < xt,
                    j < self.ytiles(),
            ;
        }
        &self.tiles[j as usize * xt as usize + i as usize]
    }

    /// Where the sublayer with the given ID is, creating it (transparent,
    /// of this layer's size) at the end if there is none. ID 0 names no
    /// sublayer.
    pub fn sublayer_index(&mut self, id: LayerID) -> (i: usize)
        requires
            old(self).wf(),
            id != 0,
        ensures
            final(self).wf(),
            final(self).tiles@ == old(self).tiles@,
            final(self).width == old(self).width,
            final(self).height == old(self).height,
            final(self).id == old(self).id && final(self).title@ == old(self).title@,
            final(self).opacity == old(self).opacity && final(self).hidden == old(self).hidden,
            final(self).censored == old(self).censored && final(self).fixed == old(self).fixed,
            final(self).blendmode == old(self).blendmode,
            i < final(self).sublayers@.len(),
            i <= old(self).sublayers@.len(),
            final(self).sublayers@[i as int].id == id,
            forall|k: int| 0 <= k < i ==> (#[trigger] final(self).sublayers@[k]).id != id,
            i < old(self).sublayers@.len() ==> final(self).sublayers@ == old(self).sublayers@,
            i == old(self).sublayers@.len() ==> {
                &&& final(self).sublayers@.len() == i + 1
                &&& final(self).sublayers@.subrange(0, i as int) == old(self).sublayers@
                &&& final(self).sublayers@[i as int].spec_sublayers().len() == 0
                &&& forall|t: int| 0 <= t < final(self).sublayers@[i as int].tiles@.len() ==>
                    #[trigger] final(self).sublayers@[i as int].tiles@[t] == Tile::Blank
            },
    {
        let mut i: usize = 0;
        while i < self.sublayers.len()
            invariant
                i <= self.sublayers@.len(),
                self.wf(),
                *self == *old(self),
                forall|k: int| 0 <= k < i ==> (#[trigger] self.sublayers@[k]).id != id,
            decreases self.sublayers@.len() - i,
        {
            if self.sublayers[i].id == id {
                return i;
            }
            i += 1;
        }
        let n = self.tiles.len();
        let sub = Layer {
            id,
            title: String::new(),
            opacity: 255,
            hidden: false,
            censored: false,
            fixed: false,
            blendmode: Blendmode::Normal,
            width: self.width,
            height: self.height,
            tiles: Layer::blank_tiles(n),
            sublayers: Vec::new(),
        };
        proof {
            assert(n == self.tiles@.len());
            assert(sub.tiles_ok());
            assert(sub.wf());
        }
        self.sublayers.push(sub);
        proof {
            assert forall|k: int| 0 <= k < self.sublayers@.len() implies {
                &&& (#[trigger] self.sublayers@[k]).wf()
                &&& self.sublayers@[k].width == self.width
                &&& self.sublayers@[k].height == self.height
            } by {
                if k < i {
                    assert(self.sublayers@[k] == old(self).sublayers@[k]);
                }
            }
            assert(self.sublayers@.subrange(0, i as int) =~= old(self).sublayers@);
        }
        i
    }

    /// `n` blank tiles
    fn blank_tiles(n: usize) -> (v: Vec<Tile>)
        ensures
            v@.len() == n,
            forall|k: int| 0 <= k < n ==> #[trigger] v@[k] == Tile::Blank,
    {
        let mut v: Vec<Tile> = Vec::new();
        let mut i: usize = 0;
        while i < n
            invariant
                i <= n,
                v@.len() == i,
                forall|k: int| 0 <= k < i ==> #[trigger] v@[k] == Tile::Blank,
            decreases n - i,
        {
            v.push(Tile::Blank);
            i += 1;
        }
        v
    }

    /// Remove the sublayer with the given ID, if there is one, and return it
    pub fn take_sublayer(&mut self, id: LayerID) -> (r: Option<Layer>)
        requires
            old(self).wf(),
        ensures
            final(self).wf(),
            final(self).tiles@ == old(self).tiles@,
            final(self).width == old(self).width && final(self).height == old(self).height,
            r is None ==> *final(self) == *old(self),
            r is None ==> final(self).sublayers@ == old(self).sublayers@ && forall|k: int|
                0 <= k < old(self).sublayers@.len() ==> (#[trigger] old(self).sublayers@[k]).id
                    != id,
            r matches Some(l) ==> exists|i: int|
                0 <= i < old(self).sublayers@.len() && l == old(self).sublayers@[i] && l.id == id
                    && final(self).sublayers@ == old(self).sublayers@.remove(i) && forall|k: int|
                    0 <= k < i ==> (#[trigger] old(self).sublayers@[k]).id != id,
    {
        let mut i: usize = 0;
        while i < self.sublayers.len()
            invariant
                i <= self.sublayers@.len(),
                self.wf(),
                *self == *old(self),
                forall|k: int| 0 <= k < i ==> (#[trigger] self.sublayers@[k]).id != id,
            decreases self.sublayers@.len() - i,
        {
            if self.sublayers[i].id == id {
                let l = self.sublayers.remove(i);
                proof {
                    assert forall|k: int| 0 <= k < self.sublayers@.len() implies {
                        &&& (#[trigger] self.sublayers@[k]).wf()
                        &&& self.sublayers@[k].width == self.width
                        &&& self.sublayers@[k].height == self.height
                    } by {
                        if k < i {
                            assert(self.sublayers@[k] == old(self).sublayers@[k]);
                        } else {
                            assert(self.sublayers@[k] == old(self).sublayers@[k + 1]);
                        }
                    }
                }
                return Some(l);
            }
            i += 1;
        }
        None
    }

    /// For each tile, whether it has a pixel with some opacity
    pub fn nonblank_tilemap(&self) -> (v: Vec<bool>)
        requires
            self.wf(),
        ensures
            v@.len() == self.spec_tiles().len(),
            forall|i: int|
                0 <= i < v@.len() ==> (#[trigger] v@[i] <==> !forall|j: int|
                    0 <= j < TILE_LENGTH ==> ch_a(#[trigger] self.spec_tiles()[i].spec_pixel(j)) == 0),
    {
        let mut v: Vec<bool> = Vec::new();
        let mut i: usize = 0;
        while i < self.tiles.len()
            invariant
                self.wf(),
                i <= self.tiles@.len(),
                v@.len() == i,
                forall|k: int|
                    0 <= k < i ==> (#[trigger] v@[k] <==> !forall|j: int|
                        0 <= j < TILE_LENGTH ==> ch_a(#[trigger] self.spec_tiles()[k].spec_pixel(j)) == 0),
            decreases self.tiles@.len() - i,
        {
            v.push(!self.tiles[i].is_blank());
            i += 1;
        }
        v
    }

    /// Flatten the tile in column `i`, row `j` of this layer (with its
    /// sublayers) onto `dest`
    pub fn flatten_tile(&self, dest: &mut TileData, i: u32, j: u32)
        requires
            self.wf(),
            flattens(*self),
            old(dest).wf(),
            i < self.xtiles(),
            j < self.ytiles(),
            forall|k: int| 0 <= k < TILE_LENGTH ==> premultiplied(#[trigger] old(dest).pixels@[k]),
        ensures
            final(dest).wf(),
            final(dest).last_touched_by == old(dest).last_touched_by,
            forall|k: int|
                0 <= k < TILE_LENGTH ==> #[trigger] final(dest).pixels@[k] == flattened_onto(
                    *self,
                    j * self.xtiles() + i,
                    old(dest).pixels@[k],
                    k,
                ),
            forall|k: int| 0 <= k < TILE_LENGTH ==> premultiplied(#[trigger] final(dest).pixels@[k]),
    {
        let xt = Tile::div_up(self.width);
        let n = self.tiles.len();
        proof {
            assert(j * xt + i < xt * self.ytiles()) by (nonlinear_arith)
                requires
                    i < xt,
                    j < self.ytiles(),
            ;
        }
        self.flatten_tile_index(dest, j as usize * xt as usize + i as usize);
    }

    /// Flatten tile `t` of this layer (with its sublayers) onto `dest`
    fn flatten_tile_index(&self, dest: &mut TileData, t: usize)
        requires
            self.wf(),
            flattens(*self),
            old(dest).wf(),
            t < self.tiles@.len(),
            forall|j: int| 0 <= j < TILE_LENGTH ==> premultiplied(#[trigger] old(dest).pixels@[j]),
        ensures
            final(dest).wf(),
            final(dest).last_touched_by == old(dest).last_touched_by,
            forall|j: int|
                0 <= j < TILE_LENGTH ==> #[trigger] final(dest).pixels@[j] == flattened_onto(
                    *self,
                    t as int,
                    old(dest).pixels@[j],
                    j,
                ),
            forall|j: int| 0 <= j < TILE_LENGTH ==> premultiplied(#[trigger] final(dest).pixels@[j]),
    {
        if !self.is_visible() {
            return;
        }
        proof {
            assert(self.tiles@[t as int].wf());
        }
        if self.sublayers.len() == 0 {
            let ghost before = *dest;
            dest.merge_tile(&self.tiles[t], self.opacity, self.blendmode);
            proof {
                assert forall|j: int| 0 <= j < TILE_LENGTH implies premultiplied(#[trigger] dest.pixels@[j]) by {
                    if self.tiles@[t as int] is Bitmap {
                        lemma_blend_keeps_premultiplied(before.pixels@[j], self.tiles@[t as int].spec_pixel(j), self.opacity);
                    }
                }
            }
        } else {
            let mut tmp = self.tiles[t].clone_data();
            let mut k: usize = 0;
            while k < self.sublayers.len()
                invariant
                    self.wf(),
                    flattens(*self),
                    t < self.tiles@.len(),
                    tmp.wf(),
                    k <= self.sublayers@.len(),
                    forall|j: int|
                        0 <= j < TILE_LENGTH ==> #[trigger] tmp.pixels@[j] == with_sublayers(
                            *self,
                            t as int,
                            j,
                            k as nat,
                        ),
                    forall|j: int| 0 <= j < TILE_LENGTH ==> premultiplied(#[trigger] tmp.pixels@[j]),
                decreases self.sublayers@.len() - k,
            {
                let s = &self.sublayers[k];
                proof {
                    assert(s.wf());
                    assert(s.tiles@.len() == self.tiles@.len());
                    assert(s.tiles@[t as int].wf());
                }
                let ghost before = tmp;
                if s.is_visible() {
                    tmp.merge_tile(&s.tiles[t], s.opacity, s.blendmode);
                }
                proof {
                    assert forall|j: int| 0 <= j < TILE_LENGTH implies premultiplied(#[trigger] tmp.pixels@[j]) && tmp.pixels@[j] == with_sublayers(*self, t as int, j, (k + 1) as nat) by {
                        if layer_visible(*s) && s.tiles@[t as int] is Bitmap {
                            lemma_blend_keeps_premultiplied(before.pixels@[j], s.tiles@[t as int].spec_pixel(j), s.opacity);
                        }
                    }
                }
                k += 1;
            }
            let ghost before = *dest;
            dest.merge_data(&tmp, self.opacity, self.blendmode);
            proof {
                assert forall|j: int| 0 <= j < TILE_LENGTH implies premultiplied(#[trigger] dest.pixels@[j]) by {
                    lemma_blend_keeps_premultiplied(before.pixels@[j], tmp.pixels@[j], self.opacity);
                }
            }
        }
    }
}

} // verus!
