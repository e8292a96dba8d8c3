//! Tiles: 64x64 pixel squares that make up a layer.
//!
//! Pixels are stored as premultiplied 32 bit ARGB values. A `Pixel` is the
//! same value as four bytes in the order blue, green, red, alpha.
use super::blendmode::Blendmode;
use super::rasterop::{
    blend_normal, blend_under, ch_a, ch_b, ch_g, ch_r, erase_pixel, integer_pixel_mode,
    pixel_blend, premultiplied, replace_pixel,
};
use super::rect::Rectangle;
use super::UserID;
use crate::strings::{ascii_art, ascii_row, string_push};
use std::rc::Rc;
use vstd::prelude::*;

verus! {

pub const TILE_SIZE: u32 = 64;

pub const TILE_SIZEI: i32 = 64;

pub const TILE_LENGTH: usize = 4096;

pub const BLUE_CHANNEL: usize = 0;

pub const GREEN_CHANNEL: usize = 1;

pub const RED_CHANNEL: usize = 2;

pub const ALPHA_CHANNEL: usize = 3;

/// A pixel as bytes: blue, green, red, alpha
pub type Pixel = [u8; 4];

/// The bytes of a 32 bit ARGB pixel value
pub open spec fn pixel_bytes(c: u32) -> Seq<u8> {
    seq![ch_b(c) as u8, ch_g(c) as u8, ch_r(c) as u8, ch_a(c) as u8]
}

#[derive(Clone)]
pub struct TileData {
    pub pixels: Vec<u32>,
    pub last_touched_by: UserID,
}

impl TileData {
    /// Holds exactly one tile's worth of pixels
    pub open spec fn wf(&self) -> bool {
        self.pixels@.len() == TILE_LENGTH
    }

    /// Tile data filled with one pixel value
    pub fn new(pixel: u32, user: UserID) -> (t: TileData)
        ensures
            t.wf(),
            forall|i: int| 0 <= i < TILE_LENGTH ==> #[trigger] t.pixels@[i] == pixel,
            t.last_touched_by == user,
    {
        let mut pixels: Vec<u32> = Vec::with_capacity(TILE_LENGTH);
        let mut i: usize = 0;
        while i < TILE_LENGTH
            invariant
                i <= TILE_LENGTH,
                pixels@.len() == i,
                forall|j: int| 0 <= j < i ==> #[trigger] pixels@[j] == pixel,
            decreases TILE_LENGTH - i,
        {
            pixels.push(pixel);
            i += 1;
        }
        TileData { pixels, last_touched_by: user }
    }

    /// A copy of this tile data
    pub fn duplicate(&self) -> (t: TileData)
        ensures
            t.pixels@ == self.pixels@,
            t.last_touched_by == self.last_touched_by,
    {
        let mut pixels: Vec<u32> = Vec::with_capacity(self.pixels.len());
        let mut i: usize = 0;
        while i < self.pixels.len()
            invariant
                i <= self.pixels@.len(),
                pixels@ == self.pixels@.subrange(0, i as int),
            decreases self.pixels@.len() - i,
        {
            pixels.push(self.pixels[i]);
            i += 1;
            assert(pixels@ =~= self.pixels@.subrange(0, i as int));
        }
        assert(self.pixels@.subrange(0, self.pixels@.len() as int) =~= self.pixels@);
        TileData { pixels, last_touched_by: self.last_touched_by }
    }
}

/// Pixel `s` blended onto `d` with opacity `o` in one of the integer modes
pub open spec fn blend_op(mode: Blendmode, d: u32, s: u32, o: int) -> u32 {
    match mode {
        Blendmode::Normal => blend_normal(d, s, o),
        Blendmode::Erase => erase_pixel(d, s, o),
        Blendmode::Behind => blend_under(d, s, o),
        _ => replace_pixel(s, o),
    }
}

impl TileData {
    /// Blend another tile's pixels onto these with the given opacity and
    /// mode (the integer modes; the others blend in floating point and are
    /// not done here)
    pub fn merge_data(&mut self, other: &TileData, opacity: u8, mode: Blendmode)
        requires
            old(self).wf(),
            other.wf(),
            integer_pixel_mode(mode),
            mode is Normal ==> forall|j: int| 0 <= j < TILE_LENGTH ==> premultiplied(#[trigger] other.pixels@[j]),
            mode is Behind ==> forall|j: int| 0 <= j < TILE_LENGTH ==> premultiplied(#[trigger] old(self).pixels@[j]),
        ensures
            final(self).wf(),
            final(self).last_touched_by == old(self).last_touched_by,
            forall|j: int|
                0 <= j < TILE_LENGTH ==> #[trigger] final(self).pixels@[j] == blend_op(
                    mode,
                    old(self).pixels@[j],
                    other.pixels@[j],
                    opacity as int,
                ),
    {
        pixel_blend(self.pixels.as_mut_slice(), other.pixels.as_slice(), opacity, mode);
    }

    /// `merge_data` with another tile; a blank tile changes nothing
    pub fn merge_tile(&mut self, other: &Tile, opacity: u8, mode: Blendmode)
        requires
            old(self).wf(),
            other.wf(),
            integer_pixel_mode(mode),
            mode is Normal ==> forall|j: int| 0 <= j < TILE_LENGTH ==> premultiplied(#[trigger] other.spec_pixel(j)),
            mode is Behind ==> forall|j: int| 0 <= j < TILE_LENGTH ==> premultiplied(#[trigger] old(self).pixels@[j]),
        ensures
            final(self).wf(),
            final(self).last_touched_by == old(self).last_touched_by,
            forall|j: int|
                0 <= j < TILE_LENGTH ==> #[trigger] final(self).pixels@[j] == if other is Bitmap {
                    blend_op(mode, old(self).pixels@[j], other.spec_pixel(j), opacity as int)
                } else {
                    old(self).pixels@[j]
                },
    {
        match other {
            Tile::Bitmap(td) => {
                proof {
                    assert forall|j: int| 0 <= j < TILE_LENGTH && mode is Normal implies premultiplied(
                        #[trigger] td.pixels@[j],
                    ) by {
                        assert(other.spec_pixel(j) == td.pixels@[j]);
                    }
                }
                self.merge_data(td, opacity, mode)
            },
            Tile::Blank => {},
        }
    }
}

#[derive(Clone)]
pub enum Tile {
    Bitmap(Rc<TileData>),
    Blank,
}

/// `Rc::strong_count`. The contract claims that the count is at least one,
/// which holds while the handle passed in exists.
#[verifier::external_body]
fn rc_strong_count(rc: &Rc<TileData>) -> (n: usize)
    ensures
        n >= 1,
{
    Rc::strong_count(rc)
}

/// `Rc::clone`: a new handle to the same pixel data. The contract claims
/// that the handle holds the same value, as `Rc`'s documentation states.
#[verifier::external_body]
fn rc_clone(rc: &Rc<TileData>) -> (r: Rc<TileData>)
    ensures
        *r == **rc,
{
    Rc::clone(rc)
}

/// `Rc::weak_count`. Nothing is claimed of the count.
#[verifier::external_body]
fn rc_weak_count(rc: &Rc<TileData>) -> (n: usize) {
    Rc::weak_count(rc)
}

impl Tile {
    /// A bitmap tile holds exactly one tile's worth of pixels
    pub open spec fn wf(&self) -> bool {
        match self {
            Tile::Bitmap(td) => td.wf(),
            Tile::Blank => true,
        }
    }

    /// The pixel at index `i` (row-major); a blank tile is fully transparent
    pub open spec fn spec_pixel(&self, i: int) -> u32 {
        match self {
            Tile::Bitmap(td) => td.pixels@[i],
            Tile::Blank => 0,
        }
    }

    /// The user tag of this tile
    pub open spec fn spec_last_touched_by(&self) -> UserID {
        match self {
            Tile::Bitmap(td) => td.last_touched_by,
            Tile::Blank => 0,
        }
    }

    /// The pixel value at index `k` (row-major)
    pub(crate) fn pixel_value(&self, k: usize) -> (c: u32)
        requires
            self.wf(),
            k < TILE_LENGTH,
        ensures
            c == self.spec_pixel(k as int),
    {
        match self {
            Tile::Bitmap(td) => td.pixels[k],
            Tile::Blank => 0,
        }
    }

    /// Another handle to this tile: a bitmap tile shares its pixel data
    pub fn share(&self) -> (t: Tile)
        ensures
            t == *self,
    {
        match self {
            Tile::Bitmap(rc) => Tile::Bitmap(rc_clone(rc)),
            Tile::Blank => Tile::Blank,
        }
    }

    /// Whether pixel index `i` (row-major) lies inside rectangle `r`
    pub open spec fn in_rect(r: Rectangle, i: int) -> bool {
        &&& r.y <= i / 64 < r.y + r.h
        &&& r.x <= i % 64 < r.x + r.w
    }

    /// A tile filled with the given pixel; a fully transparent pixel
    /// (alpha 0) gives a blank tile
    pub fn new(pixel: u32, user: UserID) -> (t: Tile)
        ensures
            t.wf(),
            ch_a(pixel) == 0 <==> t is Blank,
            ch_a(pixel) != 0 ==> t.spec_last_touched_by() == user,
            forall|i: int| 0 <= i < TILE_LENGTH ==> #[trigger] t.spec_pixel(i) == if ch_a(pixel)
                == 0 {
                0
            } else {
                pixel
            },
    {
        if pixel / 0x100_0000 == 0 {
            Tile::Blank
        } else {
            Tile::Bitmap(Rc::new(TileData::new(pixel, user)))
        }
    }

    /// A bitmap tile filled with the given pixel, even a fully transparent one
    pub fn new_solid(pixel: u32, user: UserID) -> (t: Tile)
        ensures
            t.wf(),
            t is Bitmap,
            t.spec_last_touched_by() == user,
            forall|i: int| 0 <= i < TILE_LENGTH ==> #[trigger] t.spec_pixel(i) == pixel,
    {
        Tile::Bitmap(Rc::new(TileData::new(pixel, user)))
    }

    /// The pixel value of the whole tile if every pixel is the same;
    /// a blank tile is fully transparent
    pub fn solid_color(&self) -> (c: Option<u32>)
        requires
            self.wf(),
        ensures
            c is Some <==> forall|i: int|
                0 <= i < TILE_LENGTH ==> #[trigger] self.spec_pixel(i) == self.spec_pixel(0),
            c is Some ==> c->0 == self.spec_pixel(0),
    {
        match self {
            Tile::Bitmap(td) => {
                let pix = td.pixels[0];
                let mut i: usize = 0;
                while i < TILE_LENGTH
                    invariant
                        i <= TILE_LENGTH,
                        td.wf(),
                        *self == Tile::Bitmap(*td),
                        pix == td.pixels@[0],
                        forall|j: int| 0 <= j < i ==> #[trigger] td.pixels@[j] == pix,
                    decreases TILE_LENGTH - i,
                {
                    if td.pixels[i] != pix {
                        assert(self.spec_pixel(i as int) != self.spec_pixel(0));
                        return None;
                    }
                    i += 1;
                }
                Some(pix)
            },
            Tile::Blank => Some(0),
        }
    }

    /// Take this tile's pixel data for writing. Data that no other handle
    /// shares is taken as it is; shared data is copied first, so the other
    /// handles keep the old pixels. A blank tile gives transparent pixels
    /// tagged with `user`. The tile is left blank.
    fn take_data(&mut self, user: UserID) -> (d: TileData)
        requires
            old(self).wf(),
        ensures
            d.wf(),
            *final(self) == Tile::Blank,
            forall|i: int| 0 <= i < TILE_LENGTH ==> #[trigger] d.pixels@[i] == old(self).spec_pixel(i),
            d.last_touched_by == if *old(self) is Blank {
                user
            } else {
                old(self).spec_last_touched_by()
            },
    {
        let mut cur = Tile::Blank;
        std::mem::swap(&mut cur, self);
        match cur {
            Tile::Bitmap(rc) => match Rc::try_unwrap(rc) {
                Ok(d) => d,
                Err(shared) => shared.duplicate(),
            },
            Tile::Blank => TileData::new(0, user),
        }
    }

    /// Fill this tile with a pixel value. A fully transparent pixel makes the
    /// tile blank; otherwise every pixel is set and the tile is tagged with
    /// `user`. Pixel data shared with other tiles is copied first.
    pub fn fill(&mut self, pixel: u32, user: UserID)
        requires
            old(self).wf(),
        ensures
            final(self).wf(),
            ch_a(pixel) == 0 <==> *final(self) is Blank,
            ch_a(pixel) != 0 ==> final(self).spec_last_touched_by() == user,
            forall|i: int| 0 <= i < TILE_LENGTH ==> #[trigger] final(self).spec_pixel(i) == if ch_a(
                pixel,
            ) == 0 {
                0
            } else {
                pixel
            },
    {
        if pixel / 0x100_0000 == 0 {
            *self = Tile::Blank;
        } else {
            let mut data = self.take_data(user);
            data.last_touched_by = user;
            let mut i: usize = 0;
            while i < TILE_LENGTH
                invariant
                    i <= TILE_LENGTH,
                    data.wf(),
                    data.last_touched_by == user,
                    forall|j: int| 0 <= j < i ==> #[trigger] data.pixels@[j] == pixel,
                decreases TILE_LENGTH - i,
            {
                data.pixels.set(i, pixel);
                i += 1;
            }
            *self = Tile::Bitmap(Rc::new(data));
        }
    }

    /// Write rows of pixels into rectangle `r` (in tile coordinates): row `k`
    /// of `rows` goes to tile row `r.y + k`, from column `r.x` on. A blank tile
    /// first becomes a transparent bitmap tile tagged with `user`; pixel data
    /// shared with other tiles is copied first. Pixels outside `r` keep their
    /// values.
    pub fn rect_iter_mut(&mut self, user: UserID, r: &Rectangle, rows: &Vec<Vec<u32>>)
        requires
            old(self).wf(),
            r.x >= 0 && r.y >= 0,
            r.w > 0 && r.h > 0,
            r.x + r.w - 1 < TILE_SIZEI && r.y + r.h - 1 < TILE_SIZEI,
            rows@.len() == r.h,
            forall|k: int| 0 <= k < r.h ==> (#[trigger] rows@[k])@.len() == r.w,
        ensures
            final(self).wf(),
            *final(self) is Bitmap,
            final(self).spec_last_touched_by() == if *old(self) is Blank {
                user
            } else {
                old(self).spec_last_touched_by()
            },
            forall|i: int|
                0 <= i < TILE_LENGTH ==> #[trigger] final(self).spec_pixel(i) == if Tile::in_rect(
                    *r,
                    i,
                ) {
                    rows@[i / 64 - r.y]@[i % 64 - r.x]
                } else {
                    old(self).spec_pixel(i)
                },
    {
        let mut data = self.take_data(user);
        let ghost before = data.pixels@;
        let ghost tag = data.last_touched_by;
        let mut k: i32 = 0;
        while k < r.h
            invariant
                0 <= k <= r.h,
                r.x >= 0 && r.y >= 0,
                r.w > 0 && r.h > 0,
                r.x + r.w - 1 < TILE_SIZEI && r.y + r.h - 1 < TILE_SIZEI,
                rows@.len() == r.h,
                forall|k: int| 0 <= k < r.h ==> (#[trigger] rows@[k])@.len() == r.w,
                data.wf(),
                data.last_touched_by == tag,
                before.len() == TILE_LENGTH,
                forall|i: int|
                    0 <= i < TILE_LENGTH ==> #[trigger] data.pixels@[i] == if Tile::in_rect(*r, i)
                        && i / 64 - r.y < k {
                        rows@[i / 64 - r.y]@[i % 64 - r.x]
                    } else {
                        before[i]
                    },
            decreases r.h - k,
        {
            let row = &rows[k as usize];
            let mut x: i32 = 0;
            while x < r.w
                invariant
                    0 <= k < r.h,
                    0 <= x <= r.w,
                    r.x >= 0 && r.y >= 0,
                    r.w > 0 && r.h > 0,
                    r.x + r.w - 1 < TILE_SIZEI && r.y + r.h - 1 < TILE_SIZEI,
                    rows@.len() == r.h,
                    *row == rows@[k as int],
                    row@.len() == r.w,
                    data.wf(),
                    data.last_touched_by == tag,
                    before.len() == TILE_LENGTH,
                    forall|i: int|
                        0 <= i < TILE_LENGTH ==> #[trigger] data.pixels@[i] == if Tile::in_rect(
                            *r,
                            i,
                        ) && (i / 64 - r.y < k || (i / 64 - r.y == k
                            && i % 64 - r.x < x)) {
                            rows@[i / 64 - r.y]@[i % 64 - r.x]
                        } else {
                            before[i]
                        },
                decreases r.w - x,
            {
                let idx = ((r.y + k) * TILE_SIZEI + r.x + x) as usize;
                proof {
                    let ii = idx as int;
                    assert(ii / 64 == r.y + k && ii % 64 == r.x + x) by (nonlinear_arith)
                        requires
                            ii == (r.y + k) * 64 + r.x + x,
                            0 <= r.x + x < 64,
                            0 <= r.y + k,
                    ;
                }
                data.pixels.set(idx, row[x as usize]);
                x += 1;
            }
            k += 1;
        }
        *self = Tile::Bitmap(Rc::new(data));
    }

    /// Merge another tile onto this one with the given opacity and mode
    /// (the integer modes). A blank other tile changes nothing; a blank tile
    /// becomes a transparent bitmap tile tagged like the other one first,
    /// unless the mode cannot make pixels more opaque. Pixel data shared
    /// with other tiles is copied first.
    pub fn merge(&mut self, other: &Tile, opacity: u8, mode: Blendmode)
        requires
            old(self).wf(),
            other.wf(),
            integer_pixel_mode(mode),
            mode is Normal ==> forall|j: int| 0 <= j < TILE_LENGTH ==> premultiplied(#[trigger] other.spec_pixel(j)),
            mode is Behind ==> forall|j: int| 0 <= j < TILE_LENGTH ==> premultiplied(#[trigger] old(self).spec_pixel(j)),
        ensures
            final(self).wf(),
            forall|j: int|
                0 <= j < TILE_LENGTH ==> #[trigger] final(self).spec_pixel(j) == if other is Bitmap
                    && (*old(self) is Bitmap || !(mode is Erase)) {
                    blend_op(mode, old(self).spec_pixel(j), other.spec_pixel(j), opacity as int)
                } else {
                    old(self).spec_pixel(j)
                },
            final(self).spec_last_touched_by() == if *old(self) is Blank && other is Bitmap && !(
            mode is Erase) {
                other.spec_last_touched_by()
            } else {
                old(self).spec_last_touched_by()
            },
            *old(self) is Blank && !(other is Bitmap && !(mode is Erase)) ==> *final(self) is Blank,
    {
        if let Tile::Bitmap(o) = other {
            let paint = match self {
                Tile::Bitmap(_) => true,
                Tile::Blank => mode.can_increase_opacity(),
            };
            if paint {
                let mut data = self.take_data(o.last_touched_by);
                proof {
                    assert forall|j: int| 0 <= j < TILE_LENGTH && mode is Normal implies premultiplied(
                        #[trigger] o.pixels@[j],
                    ) by {
                        assert(other.spec_pixel(j) == o.pixels@[j]);
                    }
                    assert forall|j: int| 0 <= j < TILE_LENGTH && mode is Behind implies premultiplied(
                        #[trigger] data.pixels@[j],
                    ) by {
                        assert(old(self).spec_pixel(j) == data.pixels@[j]);
                    }
                }
                data.merge_data(o, opacity, mode);
                *self = Tile::Bitmap(Rc::new(data));
            }
        }
    }

    /// Number of tiles needed to cover `x` pixels
    pub fn div_up(x: u32) -> (r: u32)
        requires
            x + TILE_SIZE - 1 <= u32::MAX,
        ensures
            r == (x + TILE_SIZE - 1) / TILE_SIZE as int,
    {
        (x + (TILE_SIZE - 1)) / TILE_SIZE
    }

    /// A copy of this tile's pixel data; a blank tile gives transparent
    /// pixels tagged with user 0
    pub fn clone_data(&self) -> (t: TileData)
        requires
            self.wf(),
        ensures
            t.wf(),
            forall|i: int| 0 <= i < TILE_LENGTH ==> #[trigger] t.pixels@[i] == self.spec_pixel(i),
            t.last_touched_by == self.spec_last_touched_by(),
    {
        match self {
            Tile::Bitmap(td) => td.duplicate(),
            Tile::Blank => TileData::new(0, 0),
        }
    }

    /// Check if all pixels of this tile are fully transparent
    pub fn is_blank(&self) -> (r: bool)
        requires
            self.wf(),
        ensures
            r <==> forall|i: int| 0 <= i < TILE_LENGTH ==> ch_a(#[trigger] self.spec_pixel(i)) == 0,
    {
        match self {
            Tile::Bitmap(td) => {
                let mut i: usize = 0;
                while i < TILE_LENGTH
                    invariant
                        i <= TILE_LENGTH,
                        td.wf(),
                        *self == Tile::Bitmap(*td),
                        forall|j: int| 0 <= j < i ==> ch_a(#[trigger] td.pixels@[j]) == 0,
                    decreases TILE_LENGTH - i,
                {
                    let p = td.pixels[i];
                    assert(p >> 24 == p / 0x100_0000) by (bit_vector);
                    if p >> 24 != 0 {
                        assert(ch_a(self.spec_pixel(i as int)) != 0);
                        return false;
                    }
                    i += 1;
                }
                true
            },
            Tile::Blank => true,
        }
    }

    /// Get the last touched by user ID tag
    pub fn last_touched_by(&self) -> (r: UserID)
        ensures
            r == self.spec_last_touched_by(),
    {
        match self {
            Tile::Bitmap(td) => td.last_touched_by,
            Tile::Blank => 0,
        }
    }

    /// The pixel at the given coordinates
    pub fn pixel_at(&self, x: u32, y: u32) -> (p: Pixel)
        requires
            self.wf(),
            x < TILE_SIZE,
            y < TILE_SIZE,
        ensures
            p@ == pixel_bytes(self.spec_pixel(y * TILE_SIZE + x)),
    {
        let c: u32 = match self {
            Tile::Bitmap(td) => td.pixels[(y * TILE_SIZE + x) as usize],
            Tile::Blank => 0,
        };
        let b = (c % 256) as u8;
        let g = ((c / 256) % 256) as u8;
        let r = ((c / 0x1_0000) % 256) as u8;
        let a = (c / 0x100_0000) as u8;
        let p = [b, g, r, a];
        assert(p@ =~= pixel_bytes(c));
        p
    }

    /// The number of handles to this tile's pixel data; 0 for a blank tile
    pub fn refcount(&self) -> (n: usize)
        ensures
            self is Blank ==> n == 0,
            self is Bitmap ==> n >= 1,
    {
        match self {
            Tile::Bitmap(d) => rc_strong_count(d).saturating_add(rc_weak_count(d)),
            Tile::Blank => 0,
        }
    }

    /// The rows of pixels inside rectangle `r` (in tile coordinates)
    pub fn rect_iter(&self, r: &Rectangle) -> (rows: Vec<Vec<u32>>)
        requires
            self.wf(),
            r.x >= 0 && r.y >= 0,
            r.w > 0 && r.h > 0,
            r.x + r.w - 1 < TILE_SIZEI && r.y + r.h - 1 < TILE_SIZEI,
        ensures
            rows@.len() == r.h,
            forall|k: int|
                0 <= k < r.h ==> (#[trigger] rows@[k])@ == Seq::new(
                    r.w as nat,
                    |x: int| self.spec_pixel((r.y + k) * TILE_SIZE + r.x + x),
                ),
    {
        let mut rows: Vec<Vec<u32>> = Vec::new();
        let mut k: i32 = 0;
        while k < r.h
            invariant
                self.wf(),
                0 <= k <= r.h,
                r.x >= 0 && r.y >= 0,
                r.w > 0 && r.h > 0,
                r.x + r.w - 1 < TILE_SIZEI && r.y + r.h - 1 < TILE_SIZEI,
                rows@.len() == k,
                forall|j: int|
                    0 <= j < k ==> (#[trigger] rows@[j])@ == Seq::new(
                        r.w as nat,
                        |x: int| self.spec_pixel((r.y + j) * TILE_SIZE + r.x + x),
                    ),
            decreases r.h - k,
        {
            let mut row: Vec<u32> = Vec::new();
            let mut x: i32 = 0;
            while x < r.w
                invariant
                    self.wf(),
                    0 <= k < r.h,
                    0 <= x <= r.w,
                    r.x >= 0 && r.y >= 0,
                    r.w > 0 && r.h > 0,
                    r.x + r.w - 1 < TILE_SIZEI && r.y + r.h - 1 < TILE_SIZEI,
                    row@ =~= Seq::new(
                        x as nat,
                        |i: int| self.spec_pixel((r.y + k) * TILE_SIZE + r.x + i),
                    ),
                decreases r.w - x,
            {
                let idx = ((r.y + k) * TILE_SIZEI + r.x + x) as usize;
                let c: u32 = match self {
                    Tile::Bitmap(td) => td.pixels[idx],
                    Tile::Blank => 0,
                };
                row.push(c);
                x += 1;
            }
            rows.push(row);
            k += 1;
        }
        rows
    }

    /// Draw the tile as text: `X` where the blue channel is nonzero, `.` elsewhere
    pub fn to_ascii_art(&self) -> (art: String)
        requires
            self.wf(),
        ensures
            self is Blank ==> art@ == "[BLANK TILE]"@,
            self is Bitmap ==> art@ == ascii_art(
                |y: int, x: int| ch_b(self.spec_pixel(y * TILE_SIZE + x)) != 0,
                TILE_SIZE as int,
                TILE_SIZE as int,
            ),
    {
        match self {
            Tile::Bitmap(td) => {
                let ghost filled = |y: int, x: int| ch_b(self.spec_pixel(y * TILE_SIZE + x)) != 0;
                let mut art = String::new();
                let mut y: u32 = 0;
                while y < TILE_SIZE
                    invariant
                        y <= TILE_SIZE,
                        td.wf(),
                        self is Bitmap,
                        *self == Tile::Bitmap(*td),
                        filled == (|y: int, x: int| ch_b(self.spec_pixel(y * TILE_SIZE + x)) != 0),
                        art@ == ascii_art(filled, TILE_SIZE as int, y as int),
                    decreases TILE_SIZE - y,
                {
                    let ghost start = art@;
                    let mut x: u32 = 0;
                    while x < TILE_SIZE
                        invariant
                            x <= TILE_SIZE,
                            y < TILE_SIZE,
                            td.wf(),
                            *self == Tile::Bitmap(*td),
                            filled == (|y: int, x: int| ch_b(self.spec_pixel(y * TILE_SIZE + x))
                                != 0),
                            art@ == start + ascii_row(filled, x as int, y as int),
                        decreases TILE_SIZE - x,
                    {
                        let c = td.pixels[(y * TILE_SIZE + x) as usize];
                        string_push(&mut art, if c % 256 == 0 { '.' } else { 'X' });
                        x += 1;
                        assert(art@ =~= start + ascii_row(filled, x as int, y as int));
                    }
                    string_push(&mut art, '\n');
                    y += 1;
                    assert(art@ =~= ascii_art(filled, TILE_SIZE as int, y as int));
                }
                art
            },
            Tile::Blank => {
                let art = String::from_str("[BLANK TILE]");
                art
            },
        }
    }
}


/// A rectangle written into a tile reads back as the rows that were written:
/// after `rect_iter_mut(user, r, rows)`, `rect_iter(r)` gives `rows`.
pub proof fn lemma_rect_write_read(before: Tile, after: Tile, r: Rectangle, rows: Vec<Vec<u32>>)
    requires
        r.x >= 0 && r.y >= 0,
        r.w > 0 && r.h > 0,
        r.x + r.w - 1 < TILE_SIZEI && r.y + r.h - 1 < TILE_SIZEI,
        rows@.len() == r.h,
        forall|k: int| 0 <= k < r.h ==> (#[trigger] rows@[k])@.len() == r.w,
        forall|i: int|
            0 <= i < TILE_LENGTH ==> #[trigger] after.spec_pixel(i) == if Tile::in_rect(r, i) {
                rows@[i / 64 - r.y]@[i % 64 - r.x]
            } else {
                before.spec_pixel(i)
            },
    ensures
        forall|k: int|
            0 <= k < r.h ==> Seq::new(
                r.w as nat,
                |x: int| after.spec_pixel((r.y + k) * TILE_SIZE + r.x + x),
            ) == (#[trigger] rows@[k])@,
{
    assert forall|k: int| 0 <= k < r.h implies Seq::new(
        r.w as nat,
        |x: int| after.spec_pixel((r.y + k) * TILE_SIZE + r.x + x),
    ) == (#[trigger] rows@[k])@ by {
        assert forall|x: int| 0 <= x < r.w implies after.spec_pixel((r.y + k) * TILE_SIZE + r.x + x)
            == rows@[k]@[x] by {
            let ii = (r.y + k) * 64 + r.x + x;
            assert(ii / 64 == r.y + k && ii % 64 == r.x + x && 0 <= ii < 4096) by (nonlinear_arith)
                requires
                    ii == (r.y + k) * 64 + r.x + x,
                    0 <= r.x + x < 64,
                    0 <= r.y + k < 64,
            ;
            assert(Tile::in_rect(r, ii));
        }
        assert(Seq::new(r.w as nat, |x: int| after.spec_pixel((r.y + k) * TILE_SIZE + r.x + x))
            =~= rows@[k]@);
    }
}

} // verus!
