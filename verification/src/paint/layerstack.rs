//! A stack of layers with a background tile and text annotations.
use super::layer::{fill_pixel, flattened_onto, flattens, tiles_for, Layer};
use super::rasterop::premultiplied;
use super::tile::{TileData, TILE_LENGTH};
use super::rect::Rectangle;
use super::tile::Tile;
use vstd::prelude::*;

verus! {

/// A floating text box over the image
pub struct Annotation {
    pub id: u16,
    pub text: String,
    pub rect: Rectangle,
    /// Background color, 32 bit ARGB
    pub background: u32,
    pub protect: bool,
    pub valign: u8,
}

pub struct LayerStack {
    pub layers: Vec<Layer>,
    pub annotations: Vec<Annotation>,
    pub background: Tile,
    pub width: u32,
    pub height: u32,
}

/// The first layer with ID `id` is at index `i`
pub open spec fn first_with_id(layers: Seq<Layer>, id: i32, i: int) -> bool {
    &&& 0 <= i < layers.len()
    &&& layers[i].id == id
    &&& forall|k: int| 0 <= k < i ==> (#[trigger] layers[k]).id != id
}

/// Pixel `jj` of tile `t` of the image: the first `k` layers flattened in
/// order onto the background
pub open spec fn stack_pixel(ls: LayerStack, t: int, jj: int, k: nat) -> u32
    decreases k,
{
    if k == 0 || k > ls.layers@.len() {
        ls.background.spec_pixel(jj)
    } else {
        flattened_onto(ls.layers@[k - 1], t, stack_pixel(ls, t, jj, (k - 1) as nat), jj)
    }
}

/// The pixel at `(x, y)` of the flattened image
pub open spec fn image_pixel(ls: LayerStack, x: int, y: int) -> u32 {
    stack_pixel(
        ls,
        (y / 64) * tiles_for(ls.width as int) + x / 64,
        (y % 64) * 64 + x % 64,
        ls.layers@.len(),
    )
}

impl LayerStack {
    /// Each layer is well formed and of the stack's size
    pub open spec fn wf(&self) -> bool {
        &&& self.background.wf()
        &&& self.width + 63 <= u32::MAX
        &&& self.height + 63 <= u32::MAX
        &&& tiles_for(self.width as int) * tiles_for(self.height as int) <= usize::MAX
        &&& forall|i: int|
            0 <= i < self.layers@.len() ==> {
                &&& (#[trigger] self.layers@[i]).wf()
                &&& self.layers@[i].width == self.width
                &&& self.layers@[i].height == self.height
            }
    }

    /// An empty stack of the given size with a blank background
    pub fn new(width: u32, height: u32) -> (s: LayerStack)
        requires
            width + 63 <= u32::MAX,
            height + 63 <= u32::MAX,
            tiles_for(width as int) * tiles_for(height as int) <= usize::MAX,
        ensures
            s.wf(),
            s.width == width && s.height == height,
            s.layers@.len() == 0,
            s.annotations@.len() == 0,
            s.background == Tile::Blank,
    {
        LayerStack {
            layers: Vec::new(),
            annotations: Vec::new(),
            background: Tile::Blank,
            width,
            height,
        }
    }

    pub fn width(&self) -> (w: u32)
        ensures
            w == self.width,
    {
        self.width
    }

    pub fn height(&self) -> (h: u32)
        ensures
            h == self.height,
    {
        self.height
    }

    /// Where the first layer with the given ID is
    pub fn find_layer_index(&self, id: i32) -> (r: Option<usize>)
        ensures
            r matches Some(i) ==> first_with_id(self.layers@, id, i as int),
            r is None ==> forall|k: int|
                0 <= k < self.layers@.len() ==> (#[trigger] self.layers@[k]).id != id,
    {
        let mut i: usize = 0;
        while i < self.layers.len()
            invariant
                i <= self.layers@.len(),
                forall|k: int| 0 <= k < i ==> (#[trigger] self.layers@[k]).id != id,
            decreases self.layers@.len() - i,
        {
            if self.layers[i].id == id {
                return Some(i);
            }
            i += 1;
        }
        None
    }

    /// Add a new layer of the stack's size filled with the given pixel
    /// value, on top, and return its index; `None`, with nothing changed,
    /// when a layer with that ID exists already
    pub fn add_layer(&mut self, id: i32, fill: u32) -> (r: Option<usize>)
        requires
            old(self).wf(),
        ensures
            final(self).wf(),
            final(self).width == old(self).width && final(self).height == old(self).height,
            final(self).background == old(self).background,
            final(self).annotations@ == old(self).annotations@,
            (exists|k: int| 0 <= k < old(self).layers@.len() && (#[trigger] old(self).layers@[k]).id == id)
                ==> r is None && final(self).layers@ == old(self).layers@,
            !(exists|k: int| 0 <= k < old(self).layers@.len() && (#[trigger] old(self).layers@[k]).id == id)
                ==> {
                &&& r == Some(old(self).layers@.len() as usize)
                &&& final(self).layers@.len() == old(self).layers@.len() + 1
                &&& final(self).layers@.subrange(0, old(self).layers@.len() as int) == old(self).layers@
                &&& final(self).layers@.last().id == id
                &&& final(self).layers@.last().spec_sublayers().len() == 0
                &&& forall|x: int, y: int|
                    0 <= x < 64 * final(self).layers@.last().xtiles() && 0 <= y < 64 * final(self).layers@.last().ytiles() ==> #[trigger] final(self).layers@.last().spec_pixel_at(x, y)
                        == fill_pixel(fill)
            },
    {
        match self.find_layer_index(id) {
            Some(i) => {
                assert(self.layers@[i as int].id == id);
                None
            },
            None => {
                let l = Layer::new(id, self.width, self.height, fill);
                let n = self.layers.len();
                self.layers.push(l);
                proof {
                    assert(self.layers@.subrange(0, n as int) =~= old(self).layers@);
                    assert forall|i: int| 0 <= i < self.layers@.len() implies {
                        &&& (#[trigger] self.layers@[i]).wf()
                        &&& self.layers@[i].width == self.width
                        &&& self.layers@[i].height == self.height
                    } by {
                        if i < n {
                            assert(self.layers@[i] == old(self).layers@[i]);
                        }
                    }
                }
                Some(n)
            },
        }
    }

    /// The first layer with the given ID
    pub fn get_layer(&self, id: i32) -> (r: Option<&Layer>)
        ensures
            r matches Some(l) ==> exists|i: int| first_with_id(self.layers@, id, i) && *l == self.layers@[i],
            r is None ==> forall|k: int|
                0 <= k < self.layers@.len() ==> (#[trigger] self.layers@[k]).id != id,
    {
        match self.find_layer_index(id) {
            Some(i) => Some(&self.layers[i]),
            None => None,
        }
    }

    /// Remove the first layer with the given ID, if there is one
    pub fn remove_layer(&mut self, id: i32)
        requires
            old(self).wf(),
        ensures
            final(self).wf(),
            final(self).width == old(self).width && final(self).height == old(self).height,
            final(self).background == old(self).background,
            final(self).annotations@ == old(self).annotations@,
            (forall|k: int| 0 <= k < old(self).layers@.len() ==> (#[trigger] old(self).layers@[k]).id != id)
                ==> final(self).layers@ == old(self).layers@,
            forall|i: int|
                first_with_id(old(self).layers@, id, i) ==> final(self).layers@
                    == old(self).layers@.remove(i),
    {
        if let Some(i) = self.find_layer_index(id) {
            self.layers.remove(i);
            proof {
                assert forall|j: int| first_with_id(old(self).layers@, id, j) implies j == i by {
                    if j < i {
                        assert(old(self).layers@[j].id != id);
                    } else if j > i {
                        assert(old(self).layers@[i as int].id != id);
                    }
                }
                assert forall|k: int| 0 <= k < self.layers@.len() implies {
                    &&& (#[trigger] self.layers@[k]).wf()
                    &&& self.layers@[k].width == self.width
                    &&& self.layers@[k].height == self.height
                } by {
                    if k < i {
                        assert(self.layers@[k] == old(self).layers@[k]);
                    } else {
                        assert(self.layers@[k] == old(self).layers@[k + 1]);
                    }
                }
            }
        }
    }

    /// A copy of this stack resized by the given margins: every layer
    /// resized (see `Layer::resized`) and every annotation moved by
    /// `left, top`; `None` when the new width or height would not be above
    /// zero
    /// `s` is this stack resized by the given margins: every layer resized
    /// (see `Layer::resize_of`), every annotation moved by `left, top`
    pub open spec fn resized_into(&self, s: LayerStack, top: i32, right: i32, bottom: i32, left: i32) -> bool {
        &&& s.wf()
        &&& s.width == left + self.width + right
        &&& s.height == top + self.height + bottom
        &&& s.background == self.background
        &&& s.layers@.len() == self.layers@.len()
        &&& forall|i: int|
            0 <= i < self.layers@.len() ==> Layer::resize_of(
                #[trigger] s.layers@[i],
                self.layers@[i],
                top as int,
                right as int,
                bottom as int,
                left as int,
            )
        &&& s.annotations@.len() == self.annotations@.len()
        &&& forall|i: int|
            0 <= i < self.annotations@.len() ==> {
                let a = #[trigger] s.annotations@[i];
                let b = self.annotations@[i];
                &&& a.id == b.id && a.text@ == b.text@ && a.background == b.background
                &&& a.protect == b.protect && a.valign == b.valign
                &&& a.rect == Rectangle { x: (b.rect.x + left) as i32, y: (b.rect.y + top) as i32, ..b.rect }
            }
    }

    /// What `resized` asks of a stack and the margins: sizes and positions
    /// that stay in the 32 bit range
    pub open spec fn can_resize(&self, top: i32, right: i32, bottom: i32, left: i32) -> bool {
        &&& self.wf()
        &&& self.width <= i32::MAX
        &&& self.height <= i32::MAX
        &&& i32::MIN <= left + self.width <= i32::MAX
        &&& i32::MIN <= top + self.height <= i32::MAX
        &&& left + self.width + right <= i32::MAX
        &&& top + self.height + bottom <= i32::MAX
        &&& (left + self.width + right > 0 && top + self.height + bottom > 0) ==> tiles_for(
            left + self.width + right,
        ) * tiles_for(top + self.height + bottom) <= usize::MAX
        &&& forall|i: int|
            0 <= i < self.annotations@.len() ==> i32::MIN <= (#[trigger] self.annotations@[i]).rect.x + left
                <= i32::MAX && i32::MIN <= self.annotations@[i].rect.y + top <= i32::MAX
    }

    pub fn resized(&self, top: i32, right: i32, bottom: i32, left: i32) -> (r: Option<LayerStack>)
        requires
            self.can_resize(top, right, bottom, left),
        ensures
            r is None <==> (left + self.width + right <= 0 || top + self.height + bottom <= 0),
            r matches Some(s) ==> self.resized_into(s, top, right, bottom, left),
    {
        let new_width = left as i64 + self.width as i64 + right as i64;
        let new_height = top as i64 + self.height as i64 + bottom as i64;
        if new_width <= 0 || new_height <= 0 {
            return None;
        }
        let mut layers: Vec<Layer> = Vec::new();
        let mut i: usize = 0;
        while i < self.layers.len()
            invariant
                self.wf(),
                self.width <= i32::MAX,
                self.height <= i32::MAX,
                i32::MIN <= left + self.width <= i32::MAX,
                i32::MIN <= top + self.height <= i32::MAX,
                0 < new_width == left + self.width + right <= i32::MAX,
                0 < new_height == top + self.height + bottom <= i32::MAX,
                tiles_for(left + self.width + right) * tiles_for(top + self.height + bottom)
                    <= usize::MAX,
                i <= self.layers@.len(),
                layers@.len() == i,
                forall|k: int|
                    0 <= k < i ==> {
                        &&& (#[trigger] layers@[k]).wf()
                        &&& layers@[k].width == new_width
                        &&& layers@[k].height == new_height
                        &&& Layer::resize_of(
                            layers@[k],
                            self.layers@[k],
                            top as int,
                            right as int,
                            bottom as int,
                            left as int,
                        )
                    },
            decreases self.layers@.len() - i,
        {
            layers.push(self.layers[i].resized(top, right, bottom, left));
            i += 1;
        }
        let mut annotations: Vec<Annotation> = Vec::new();
        let mut k: usize = 0;
        while k < self.annotations.len()
            invariant
                k <= self.annotations@.len(),
                annotations@.len() == k,
                forall|i: int|
                    0 <= i < self.annotations@.len() ==> i32::MIN <= (#[trigger] self.annotations@[i]).rect.x + left
                        <= i32::MAX && i32::MIN <= self.annotations@[i].rect.y + top <= i32::MAX,
                forall|i: int|
                    0 <= i < k ==> {
                        let a = #[trigger] annotations@[i];
                        let b = self.annotations@[i];
                        &&& a.id == b.id && a.text@ == b.text@ && a.background == b.background
                        &&& a.protect == b.protect && a.valign == b.valign
                        &&& a.rect == Rectangle { x: (b.rect.x + left) as i32, y: (b.rect.y + top) as i32, ..b.rect }
                    },
            decreases self.annotations@.len() - k,
        {
            let a = &self.annotations[k];
            annotations.push(Annotation {
                id: a.id,
                text: a.text.clone(),
                rect: Rectangle { x: a.rect.x + left, y: a.rect.y + top, w: a.rect.w, h: a.rect.h },
                background: a.background,
                protect: a.protect,
                valign: a.valign,
            });
            k += 1;
        }
        Some(
            LayerStack {
                layers,
                annotations,
                background: self.background.share(),
                width: new_width as u32,
                height: new_height as u32,
            },
        )
    }

    /// Every layer can be flattened (premultiplied pixels, integer modes)
    /// onto a premultiplied background
    pub open spec fn flattens(&self) -> bool {
        &&& forall|j: int| 0 <= j < TILE_LENGTH ==> premultiplied(#[trigger] self.background.spec_pixel(j))
        &&& forall|k: int| 0 <= k < self.layers@.len() ==> flattens(#[trigger] self.layers@[k])
    }

    /// The flattened content of the tile in column `i`, row `j`: the
    /// background with every layer flattened onto it in order; the
    /// background alone outside the image
    pub fn flatten_tile(&self, i: u32, j: u32) -> (d: TileData)
        requires
            self.wf(),
            self.flattens(),
            i * 64 <= u32::MAX,
            j * 64 <= u32::MAX,
        ensures
            d.wf(),
            forall|jj: int|
                0 <= jj < TILE_LENGTH ==> #[trigger] d.pixels@[jj] == if i * 64 < self.width && j * 64
                    < self.height {
                    stack_pixel(*self, j * tiles_for(self.width as int) + i, jj, self.layers@.len())
                } else {
                    self.background.spec_pixel(jj)
                },
    {
        let mut d = self.background.clone_data();
        if i * 64 < self.width && j * 64 < self.height {
            proof {
                assert(i < tiles_for(self.width as int) && j < tiles_for(self.height as int)) by (nonlinear_arith)
                    requires
                        i * 64 < self.width,
                        j * 64 < self.height,
                ;
            }
            let mut k: usize = 0;
            while k < self.layers.len()
                invariant
                    self.wf(),
                    self.flattens(),
                    i < tiles_for(self.width as int),
                    j < tiles_for(self.height as int),
                    k <= self.layers@.len(),
                    d.wf(),
                    forall|jj: int|
                        0 <= jj < TILE_LENGTH ==> #[trigger] d.pixels@[jj] == stack_pixel(
                            *self,
                            j * tiles_for(self.width as int) + i,
                            jj,
                            k as nat,
                        ),
                    forall|jj: int| 0 <= jj < TILE_LENGTH ==> premultiplied(#[trigger] d.pixels@[jj]),
                decreases self.layers@.len() - k,
            {
                let l = &self.layers[k];
                proof {
                    assert(l.wf() && flattens(*l));
                    assert(l.xtiles() == tiles_for(self.width as int));
                }
                l.flatten_tile(&mut d, i, j);
                k += 1;
            }
        }
        d
    }

    /// The flattened image, row by row, with its width and height
    pub fn to_image(&self) -> (img: (Vec<u32>, u32, u32))
        requires
            self.wf(),
            self.flattens(),
            self.width * self.height <= usize::MAX,
        ensures
            img.1 == self.width && img.2 == self.height,
            img.0@.len() == self.width * self.height,
            forall|x: int, y: int|
                0 <= x < self.width && 0 <= y < self.height ==> #[trigger] img.0@[y * self.width + x]
                    == image_pixel(*self, x, y),
    {
        let w = self.width;
        let h = self.height;
        let xt = Tile::div_up(w);
        let mut image: Vec<u32> = Vec::new();
        let mut row: Vec<TileData> = Vec::new();
        let mut y: u32 = 0;
        while y < h
            invariant
                self.wf(),
                self.flattens(),
                w == self.width && h == self.height,
                w * h <= usize::MAX,
                xt == tiles_for(w as int),
                y <= h,
                image@.len() == y * w,
                y < h && y % 64 != 0 ==> {
                    &&& row@.len() == xt
                    &&& forall|i: int, jj: int|
                        0 <= i < xt && 0 <= jj < TILE_LENGTH ==> #[trigger] row@[i].pixels@[jj]
                            == stack_pixel(*self, (y / 64) * xt + i, jj, self.layers@.len())
                    &&& forall|i: int| 0 <= i < xt ==> (#[trigger] row@[i]).wf()
                },
                forall|x: int, yy: int|
                    0 <= x < w && 0 <= yy < y ==> #[trigger] image@[yy * w + x] == image_pixel(*self, x, yy),
            decreases h - y,
        {
            if y % 64 == 0 {
                row = Vec::new();
                let mut i: u32 = 0;
                while i < xt
                    invariant
                        self.wf(),
                        self.flattens(),
                        w == self.width && h == self.height,
                        xt == tiles_for(w as int),
                        y < h,
                        i <= xt,
                        row@.len() == i,
                        forall|ii: int, jj: int|
                            0 <= ii < i && 0 <= jj < TILE_LENGTH ==> #[trigger] row@[ii].pixels@[jj]
                                == stack_pixel(*self, (y / 64) * xt + ii, jj, self.layers@.len()),
                        forall|ii: int| 0 <= ii < i ==> (#[trigger] row@[ii]).wf(),
                    decreases xt - i,
                {
                    proof {
                        assert(i * 64 < w && i * 64 <= u32::MAX) by (nonlinear_arith)
                            requires
                                i < xt,
                                xt == (w + 63) / 64,
                                w <= u32::MAX,
                        ;
                        assert((y / 64) * 64 <= y);
                    }
                    let td = self.flatten_tile(i, y / 64);
                    row.push(td);
                    i += 1;
                }
            }
            let mut x: u32 = 0;
            while x < w
                invariant
                    self.wf(),
                    w == self.width && h == self.height,
                    w * h <= usize::MAX,
                    xt == tiles_for(w as int),
                    y < h,
                    x <= w,
                    row@.len() == xt,
                    forall|i: int, jj: int|
                        0 <= i < xt && 0 <= jj < TILE_LENGTH ==> #[trigger] row@[i].pixels@[jj]
                            == stack_pixel(*self, (y / 64) * xt + i, jj, self.layers@.len()),
                    forall|i: int| 0 <= i < xt ==> (#[trigger] row@[i]).wf(),
                    image@.len() == y * w + x,
                    forall|xx: int, yy: int|
                        0 <= xx < w && 0 <= yy < y ==> #[trigger] image@[yy * w + xx] == image_pixel(*self, xx, yy),
                    forall|xx: int| 0 <= xx < x ==> #[trigger] image@[y * w + xx] == image_pixel(*self, xx, y as int),
                decreases w - x,
            {
                proof {
                    assert(x / 64 < xt) by (nonlinear_arith)
                        requires
                            x < w,
                            xt == (w + 63) / 64,
                    ;
                }
                let td = &row[(x / 64) as usize];
                let v = td.pixels[((y % 64) * 64 + x % 64) as usize];
                let ghost prev = image@;
                image.push(v);
                proof {
                    assert forall|xx: int, yy: int| 0 <= xx < w && 0 <= yy < y implies #[trigger] image@[yy * w + xx]
                        == image_pixel(*self, xx, yy) by {
                        assert(yy * w + xx < y * w) by (nonlinear_arith)
                            requires
                                0 <= xx < w,
                                0 <= yy < y,
                        ;
                        assert(image@[yy * w + xx] == prev[yy * w + xx]);
                    }
                }
                proof {
                    assert((y * w + x) + 1 == y * w + (x + 1));
                }
                x += 1;
            }
            proof {
                assert(y * w + w == (y + 1) * w) by (nonlinear_arith);
                assert forall|xx: int, yy: int| 0 <= xx < w && 0 <= yy < y + 1 implies #[trigger] image@[yy * w + xx] == image_pixel(*self, xx, yy) by {
                    if yy == y {
                    }
                }
                if y + 1 < h && (y + 1) % 64 != 0 {
                    assert((y + 1) / 64 == y / 64) by {
                        super::layer::lemma_divmod64_pub(y as int + 1, (y / 64) as int, (y % 64 + 1) as int);
                    }
                }
            }
            y += 1;
        }
        proof {
            assert(y * w == w * h) by (nonlinear_arith)
                requires
                    y == h,
            ;
        }
        (image, w, h)
    }

    /// Whether `resized` can be called with these margins (see `can_resize`)
    pub fn can_resize_exec(&self, top: i32, right: i32, bottom: i32, left: i32) -> (r: bool)
        requires
            self.wf(),
        ensures
            r == self.can_resize(top, right, bottom, left),
    {
        let w = self.width as i64;
        let h = self.height as i64;
        if w > i32::MAX as i64 || h > i32::MAX as i64 {
            return false;
        }
        let nw = left as i64 + w + right as i64;
        let nh = top as i64 + h + bottom as i64;
        if left as i64 + w > i32::MAX as i64 || top as i64 + h > i32::MAX as i64 || nw > i32::MAX as i64
            || nh > i32::MAX as i64 {
            return false;
        }
        if nw > 0 && nh > 0 {
            let tw: u64 = ((nw + 63) / 64) as u64;
            let th: u64 = ((nh + 63) / 64) as u64;
            proof {
                assert(tw <= 0x400_0000 && th <= 0x400_0000);
                assert(tw * th <= 0x10_0000_0000_0000) by (nonlinear_arith)
                    requires
                        tw <= 0x400_0000,
                        th <= 0x400_0000,
                ;
            }
            if tw * th > usize::MAX as u64 {
                return false;
            }
        }
        let mut i: usize = 0;
        while i < self.annotations.len()
            invariant
                i <= self.annotations@.len(),
                forall|k: int|
                    0 <= k < i ==> i32::MIN <= (#[trigger] self.annotations@[k]).rect.x + left <= i32::MAX
                        && i32::MIN <= self.annotations@[k].rect.y + top <= i32::MAX,
            decreases self.annotations@.len() - i,
        {
            let a = &self.annotations[i];
            let ax = a.rect.x as i64 + left as i64;
            let ay = a.rect.y as i64 + top as i64;
            if ax < i32::MIN as i64 || ax > i32::MAX as i64 || ay < i32::MIN as i64 || ay > i32::MAX as i64 {
                return false;
            }
            i += 1;
        }
        true
    }

    /// Whether `to_image` can be called (see `flattens`)
    pub fn can_flatten(&self) -> (r: bool)
        requires
            self.wf(),
        ensures
            r == (self.flattens() && self.width * self.height <= usize::MAX),
    {
        proof {
            assert((self.width as u64) * (self.height as u64) <= u64::MAX) by (nonlinear_arith)
                requires
                    self.width <= u32::MAX,
                    self.height <= u32::MAX,
            ;
        }
        if (self.width as u64) * (self.height as u64) > usize::MAX as u64 {
            return false;
        }
        let mut j: usize = 0;
        while j < 4096
            invariant
                self.wf(),
                j <= 4096,
                forall|jj: int| 0 <= jj < j ==> premultiplied(#[trigger] self.background.spec_pixel(jj)),
            decreases 4096 - j,
        {
            if !crate::canvas::state::is_premultiplied(self.background.pixel_value(j)) {
                return false;
            }
            j += 1;
        }
        let mut k: usize = 0;
        while k < self.layers.len()
            invariant
                self.wf(),
                k <= self.layers@.len(),
                forall|kk: int| 0 <= kk < k ==> flattens(#[trigger] self.layers@[kk]),
            decreases self.layers@.len() - k,
        {
            if !Self::layer_flattens(&self.layers[k]) {
                return false;
            }
            k += 1;
        }
        true
    }

    /// Whether a layer and its sublayers blend in integer modes and hold
    /// premultiplied pixels
    fn layer_flattens(l: &Layer) -> (r: bool)
        requires
            l.wf(),
        ensures
            r == flattens(*l),
    {
        if !Self::integer_mode(l.blendmode) || !crate::canvas::state::layer_premultiplied(l) {
            return false;
        }
        let mut k: usize = 0;
        while k < l.sublayers.len()
            invariant
                l.wf(),
                k <= l.sublayers@.len(),
                forall|kk: int|
                    0 <= kk < k ==> {
                        &&& super::rasterop::integer_pixel_mode((#[trigger] l.sublayers@[kk]).blendmode)
                        &&& forall|t: int, j: int|
                            0 <= t < l.sublayers@[kk].tiles@.len() && 0 <= j < TILE_LENGTH ==> premultiplied(
                                #[trigger] l.sublayers@[kk].tiles@[t].spec_pixel(j),
                            )
                    },
            decreases l.sublayers@.len() - k,
        {
            let s = &l.sublayers[k];
            proof {
                assert(s.wf());
            }
            if !Self::integer_mode(s.blendmode) || !crate::canvas::state::layer_premultiplied(s) {
                return false;
            }
            k += 1;
        }
        true
    }

    /// Whether a mode is one of the integer modes
    fn integer_mode(m: super::blendmode::Blendmode) -> (r: bool)
        ensures
            r == super::rasterop::integer_pixel_mode(m),
    {
        match m {
            super::blendmode::Blendmode::Normal | super::blendmode::Blendmode::Erase
            | super::blendmode::Blendmode::Behind | super::blendmode::Blendmode::Replace => true,
            _ => false,
        }
    }
}

} // verus!
