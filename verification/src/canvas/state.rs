//! The canvas: a layer stack changed message by message.
use crate::canvas::brushes::{
    dab_steps, drawdabs_classic, drawdabs_classic_result, drawdabs_pixel, drawdabs_pixel_result,
    masks_fit, steps_fit, stroke_mode, PlacedMask,
};
use crate::paint::blendmode::{blendmode_number, lemma_blendmode_number_injective, Blendmode};
use crate::paint::editlayer::{
    change_attributes, change_attributes_result, fill_rect, fill_rect_result, put_tile,
    put_tile_result, tiles_premultiplied,
};
use crate::paint::layer::Layer;
use crate::paint::layerstack::{first_with_id, LayerStack};
use crate::paint::rasterop::{
    argb, ch_a, ch_b, ch_g, ch_r, integer_mask_mode, integer_pixel_mode, premultiplied,
};
use crate::paint::rect::Rectangle;
use crate::paint::tile::Tile;
use crate::paint::UserID;
use crate::protocol::message::{
    Body, CanvasResizeMessage, DrawDabsClassicMessage, DrawDabsPixelMessage, FillRectMessage,
    LayerAttributesMessage, LayerCreateMessage, Message, PutTileMessage,
};
use vstd::prelude::*;

verus! {

/// A 32 bit ARGB color as a premultiplied pixel: each color channel scaled
/// by alpha / 255, rounded down
pub open spec fn premultiplied_color(c: u32) -> u32 {
    let a = ch_a(c) as int;
    argb(a, ch_r(c) * a / 255, ch_g(c) * a / 255, ch_b(c) * a / 255)
}

/// The premultiplied pixel of a 32 bit ARGB color
pub fn premultiply(c: u32) -> (p: u32)
    ensures
        p == premultiplied_color(c),
{
    let a = c / 0x100_0000;
    let r = (c / 0x1_0000) % 256;
    let g = (c / 256) % 256;
    let b = c % 256;
    proof {
        assert(r * a / 255 <= 255 && g * a / 255 <= 255 && b * a / 255 <= 255) by (nonlinear_arith)
            requires
                r < 256,
                g < 256,
                b < 256,
                a < 256,
        ;
        assert(r * a <= 255 * 255 && g * a <= 255 * 255 && b * a <= 255 * 255) by (nonlinear_arith)
            requires
                r < 256,
                g < 256,
                b < 256,
                a < 256,
        ;
    }
    a * 0x100_0000 + (r * a / 255) * 0x1_0000 + (g * a / 255) * 256 + b * a / 255
}

/// The blending mode a message's mode number stands for; unknown numbers
/// stand for normal blending
pub open spec fn message_mode(v: u8) -> Blendmode {
    stroke_mode(v)
}

/// The mode with the given number, or normal blending
fn mode_or_normal(v: u8) -> (m: Blendmode)
    ensures
        m == message_mode(v),
{
    let mode = match Blendmode::try_from_u8(v) {
        Some(m) => m,
        None => Blendmode::Normal,
    };
    proof {
        if exists|m: Blendmode| blendmode_number(m) == v {
            let c = choose|m: Blendmode| blendmode_number(m) == v;
            lemma_blendmode_number_injective(c, mode);
        }
    }
    mode
}

/// `new` is `old` with the first layer with the given ID changed as `rel`
/// says (nothing changes when there is no such layer); the stack's size,
/// background and annotations are kept
pub open spec fn layer_changed(
    old: LayerStack,
    new: LayerStack,
    id: i32,
    rel: spec_fn(Layer, Layer) -> bool,
) -> bool {
    &&& new.width == old.width && new.height == old.height
    &&& new.background == old.background
    &&& new.annotations@ == old.annotations@
    &&& (forall|k: int| 0 <= k < old.layers@.len() ==> (#[trigger] old.layers@[k]).id != id)
        ==> new.layers@ == old.layers@
    &&& forall|i: int|
        first_with_id(old.layers@, id, i) ==> {
            &&& new.layers@.len() == old.layers@.len()
            &&& forall|k: int|
                0 <= k < old.layers@.len() && k != i ==> #[trigger] new.layers@[k] == old.layers@[k]
            &&& rel(old.layers@[i], new.layers@[i])
        }
}

/// `b` is layer `a` with the attributes of a message set (see
/// `change_attributes`), `v` its map of tiles with some opacity
pub closed spec fn attributes_set(a: Layer, b: Layer, m: LayerAttributesMessage, v: Seq<bool>) -> bool {
    change_attributes_result(
        a,
        b,
        m.sublayer as i32,
        m.opacity,
        message_mode(m.blend),
        m.flags & LayerAttributesMessage::FLAGS_CENSOR != 0,
        m.flags & LayerAttributesMessage::FLAGS_FIXED != 0,
        v,
    )
}

/// `b` is layer `a` after filling the rectangle of a message (see
/// `fill_rect`), which reported area `r`
pub closed spec fn filled_with(a: Layer, b: Layer, m: FillRectMessage, r: Option<Rectangle>) -> bool {
    fill_rect_result(a, b, premultiplied_color(m.color), message_mode(m.mode), fill_area(m), r)
}

/// The first layer with the given ID meets `cond`, if there is one
pub open spec fn found_layer_meets(ls: LayerStack, id: i32, cond: spec_fn(Layer) -> bool) -> bool {
    forall|i: int| first_with_id(ls.layers@, id, i) ==> cond(#[trigger] ls.layers@[i])
}

/// The color of a four byte solid tile, big endian ARGB
pub open spec fn solid_tile_color(b: Seq<u8>) -> u32 {
    (b[0] * 0x100_0000 + b[1] * 0x1_0000 + b[2] * 256 + b[3]) as u32
}

/// The tile `Tile::new` makes of a pixel: blank for a transparent one
pub closed spec fn is_tile_of(t: Tile, pixel: u32, user: UserID) -> bool {
    &&& t.wf()
    &&& (ch_a(pixel) == 0 <==> t is Blank)
    &&& ch_a(pixel) != 0 ==> t.spec_last_touched_by() == user
    &&& forall|j: int| 0 <= j < 4096 ==> #[trigger] t.spec_pixel(j) == if ch_a(pixel) == 0 {
        0
    } else {
        pixel
    }
}

/// The rectangle of a fill message
pub open spec fn fill_area(m: FillRectMessage) -> Rectangle {
    Rectangle { x: m.x as i32, y: m.y as i32, w: m.w as i32, h: m.h as i32 }
}

/// What filling a layer with a fill message asks of it
pub open spec fn can_fill(l: Layer, m: FillRectMessage) -> bool {
    let r = fill_area(m);
    &&& integer_pixel_mode(message_mode(m.mode))
    &&& message_mode(m.mode) is Normal ==> premultiplied(premultiplied_color(m.color))
    &&& message_mode(m.mode) is Behind ==> tiles_premultiplied(l)
    &&& 0 <= r.w && 0 <= r.h
    &&& r.x + r.w <= i32::MAX
    &&& r.y + r.h <= i32::MAX
}

/// What drawing a pixel stroke onto a layer asks of it
pub open spec fn can_draw_pixels(l: Layer, user: UserID, m: DrawDabsPixelMessage) -> bool {
    &&& steps_fit(m.x as int, m.y as int, m.dabs@)
    &&& m.color / 0x100_0000 > 0 ==> user != 0
    &&& m.color / 0x100_0000 == 0 ==> integer_mask_mode(stroke_mode(m.mode))
    &&& m.color / 0x100_0000 == 0 && stroke_mode(m.mode) is Behind ==> tiles_premultiplied(l)
}

/// What drawing a classic brush stroke onto a layer asks of it
pub open spec fn can_draw_classic(l: Layer, user: UserID, m: DrawDabsClassicMessage) -> bool {
    &&& m.color / 0x100_0000 > 0 ==> user != 0
    &&& m.color / 0x100_0000 == 0 ==> integer_mask_mode(stroke_mode(m.mode))
    &&& m.color / 0x100_0000 == 0 && stroke_mode(m.mode) is Behind ==> tiles_premultiplied(l)
}

pub struct CanvasState {
    pub layerstack: LayerStack,
}

impl CanvasState {
    pub open spec fn wf(&self) -> bool {
        self.layerstack.wf()
    }

    /// The messages handled here, on this canvas: the drawing commands
    /// (with their requirements met), and the messages with no effect on the
    /// image. Undo needs the session history and is not handled here; a
    /// classic brush stroke is drawn from its masks (see `accepts_classic`).
    pub open spec fn accepts(&self, msg: Message) -> bool {
        let ls = self.layerstack;
        match msg.body {
            Body::CanvasResize(m) => ls.can_resize(m.top, m.right, m.bottom, m.left),
            Body::LayerCreate(_) => true,
            Body::LayerAttributes(_) => true,
            Body::PutTile(m) => m.image@.len() == 4 && found_layer_meets(
                ls,
                m.layer as i32,
                |l: Layer| m.row * l.xtiles() + m.col <= u32::MAX,
            ),
            Body::CanvasBackground(p) => p@.len() == 4,
            Body::FillRect(m) => m.w == 0 || m.h == 0 || found_layer_meets(
                ls,
                m.layer as i32,
                |l: Layer| can_fill(l, m),
            ),
            Body::DrawDabsPixel(m) => found_layer_meets(
                ls,
                m.layer as i32,
                |l: Layer| can_draw_pixels(l, msg.user_id, m),
            ),
            Body::DrawDabsPixelSquare(m) => found_layer_meets(
                ls,
                m.layer as i32,
                |l: Layer| can_draw_pixels(l, msg.user_id, m),
            ),
            Body::UndoPoint | Body::PenUp | Body::Join(_) | Body::SessionOwner(_) | Body::Chat(_)
            | Body::TrustedUsers(_) | Body::PrivateChat(_) | Body::Interval(_) | Body::LaserTrail(
                _,
            ) | Body::MovePointer(_) | Body::Marker(_) | Body::UserACL(_) | Body::LayerACL(_)
            | Body::FeatureAccessLevels(_) | Body::Filtered(_) => true,
            _ => false,
        }
    }

    /// A classic brush stroke, given the masks shaped from its dabs, is
    /// accepted when the masks fit and the first layer with its ID, if any,
    /// can be drawn on (see `drawdabs_classic`)
    pub open spec fn accepts_classic(
        &self,
        user: UserID,
        m: DrawDabsClassicMessage,
        masks: Seq<PlacedMask>,
    ) -> bool {
        &&& masks_fit(masks)
        &&& found_layer_meets(
            self.layerstack,
            m.layer as i32,
            |l: Layer| can_draw_classic(l, user, m),
        )
    }

    /// The canvas after a classic brush stroke: the masks drawn onto the
    /// first layer with its ID
    pub open spec fn classic_drawn(
        old: LayerStack,
        new: LayerStack,
        user: UserID,
        m: DrawDabsClassicMessage,
        masks: Seq<PlacedMask>,
    ) -> bool {
        layer_changed(
            old,
            new,
            m.layer as i32,
            |a: Layer, b: Layer| drawdabs_classic_result(a, b, user, m.color, m.mode, masks),
        )
    }

    /// The canvas after a message: see each handler
    pub open spec fn next(old: LayerStack, new: LayerStack, msg: Message) -> bool {
        match msg.body {
            Body::CanvasResize(m) => if m.left + old.width + m.right <= 0 || m.top + old.height
                + m.bottom <= 0 {
                new == old
            } else {
                old.resized_into(new, m.top, m.right, m.bottom, m.left)
            },
            Body::LayerCreate(m) => Self::created(old, new, m),
            Body::LayerAttributes(m) => layer_changed(
                old,
                new,
                m.id as i32,
                |a: Layer, b: Layer|
                    exists|v: Seq<bool>| #[trigger] attributes_set(a, b, m, v),
            ),
            Body::PutTile(m) => Self::tile_put(old, new, msg.user_id, m),
            Body::CanvasBackground(p) => {
                &&& new.layers@ == old.layers@
                &&& new.annotations@ == old.annotations@
                &&& new.width == old.width && new.height == old.height
                &&& is_tile_of(new.background, premultiplied_color(solid_tile_color(p@)), 0)
            },
            Body::FillRect(m) => if m.w == 0 || m.h == 0 {
                new == old
            } else {
                layer_changed(
                    old,
                    new,
                    m.layer as i32,
                    |a: Layer, b: Layer|
                        exists|r: Option<Rectangle>| #[trigger] filled_with(a, b, m, r),
                )
            },
            Body::DrawDabsPixel(m) => layer_changed(
                old,
                new,
                m.layer as i32,
                |a: Layer, b: Layer| drawdabs_pixel_result(a, b, msg.user_id, m, false),
            ),
            Body::DrawDabsPixelSquare(m) => layer_changed(
                old,
                new,
                m.layer as i32,
                |a: Layer, b: Layer| drawdabs_pixel_result(a, b, msg.user_id, m, true),
            ),
            _ => new == old,
        }
    }

    /// The canvas after a tile message: the tile of its four byte color
    /// put on the first layer with its ID (see `put_tile`)
    pub open spec fn tile_put(old: LayerStack, new: LayerStack, user: UserID, m: PutTileMessage) -> bool {
        exists|t: Tile|
            #[trigger] is_tile_of(t, premultiplied_color(solid_tile_color(m.image@)), user)
                && layer_changed(
                old,
                new,
                m.layer as i32,
                |a: Layer, b: Layer|
                    put_tile_result(
                        a,
                        b,
                        m.sublayer as i32,
                        m.col as u32,
                        m.row as u32,
                        m.repeat as u32,
                        t,
                    ),
            )
    }

    /// A new layer was added as `LayerStack::add_layer` does, filled with
    /// the message's color
    pub open spec fn created(old: LayerStack, new: LayerStack, m: LayerCreateMessage) -> bool {
        let id = m.id as i32;
        let fill = premultiplied_color(m.fill);
        &&& new.width == old.width && new.height == old.height
        &&& new.background == old.background
        &&& new.annotations@ == old.annotations@
        &&& (exists|k: int| 0 <= k < old.layers@.len() && (#[trigger] old.layers@[k]).id == id)
            ==> new.layers@ == old.layers@
        &&& !(exists|k: int| 0 <= k < old.layers@.len() && (#[trigger] old.layers@[k]).id == id)
            ==> {
            &&& new.layers@.len() == old.layers@.len() + 1
            &&& new.layers@.subrange(0, old.layers@.len() as int) == old.layers@
            &&& new.layers@.last().id == id
            &&& new.layers@.last().spec_sublayers().len() == 0
            &&& forall|x: int, y: int|
                0 <= x < 64 * new.layers@.last().xtiles() && 0 <= y < 64 * new.layers@.last().ytiles()
                    ==> #[trigger] new.layers@.last().spec_pixel_at(x, y)
                    == crate::paint::layer::fill_pixel(fill)
        }
    }

    /// An empty canvas
    pub fn new() -> (c: CanvasState)
        ensures
            c.wf(),
            is_empty_canvas(c.layerstack),
    {
        assert(crate::paint::layer::tiles_for(0) == 0);
        CanvasState { layerstack: LayerStack::new(0, 0) }
    }

    /// The canvas's layer stack
    pub fn layerstack(&self) -> (ls: &LayerStack)
        ensures
            *ls == self.layerstack,
    {
        &self.layerstack
    }

    /// Apply a message to the canvas
    pub fn receive_message(&mut self, msg: &Message)
        requires
            old(self).wf(),
            old(self).accepts(*msg),
        ensures
            final(self).wf(),
            Self::next(old(self).layerstack, final(self).layerstack, *msg),
    {
        let user = msg.user_id;
        match &msg.body {
            Body::CanvasResize(m) => self.handle_canvas_resize(m),
            Body::LayerCreate(m) => self.handle_layer_create(m),
            Body::LayerAttributes(m) => self.handle_layer_attributes(m),
            Body::PutTile(m) => self.handle_puttile(user, m),
            Body::CanvasBackground(p) => self.handle_background(p),
            Body::FillRect(m) => self.handle_fillrect(user, m),
            Body::DrawDabsPixel(m) => self.handle_drawdabs_pixel(user, m, false),
            Body::DrawDabsPixelSquare(m) => self.handle_drawdabs_pixel(user, m, true),
            _ => {},
        }
    }

    /// Take the layer at index `i` out of the stack
    fn take_layer(&mut self, i: usize) -> (l: Layer)
        requires
            old(self).wf(),
            i < old(self).layerstack.layers@.len(),
        ensures
            l == old(self).layerstack.layers@[i as int],
            l.wf(),
            l.width == old(self).layerstack.width && l.height == old(self).layerstack.height,
            final(self).layerstack.layers@ == old(self).layerstack.layers@.remove(i as int),
            final(self).layerstack.width == old(self).layerstack.width,
            final(self).layerstack.height == old(self).layerstack.height,
            final(self).layerstack.background == old(self).layerstack.background,
            final(self).layerstack.annotations@ == old(self).layerstack.annotations@,
    {
        self.layerstack.layers.remove(i)
    }

    /// Put a layer back at index `i`
    fn put_layer(&mut self, i: usize, l: Layer, Ghost(before): Ghost<LayerStack>)
        requires
            before.wf(),
            i < before.layers@.len(),
            old(self).layerstack.layers@ == before.layers@.remove(i as int),
            old(self).layerstack.width == before.width,
            old(self).layerstack.height == before.height,
            old(self).layerstack.background == before.background,
            old(self).layerstack.annotations@ == before.annotations@,
            l.wf(),
            l.width == before.width && l.height == before.height,
        ensures
            final(self).wf(),
            final(self).layerstack.layers@ == before.layers@.update(i as int, l),
            final(self).layerstack.width == before.width,
            final(self).layerstack.height == before.height,
            final(self).layerstack.background == before.background,
            final(self).layerstack.annotations@ == before.annotations@,
    {
        self.layerstack.layers.insert(i, l);
        proof {
            assert(self.layerstack.layers@ =~= before.layers@.update(i as int, l));
            assert forall|k: int| 0 <= k < self.layerstack.layers@.len() implies {
                &&& (#[trigger] self.layerstack.layers@[k]).wf()
                &&& self.layerstack.layers@[k].width == self.layerstack.width
                &&& self.layerstack.layers@[k].height == self.layerstack.height
            } by {
                if k != i {
                    assert(self.layerstack.layers@[k] == before.layers@[k]);
                }
            }
        }
    }

    fn handle_canvas_resize(&mut self, m: &CanvasResizeMessage)
        requires
            old(self).wf(),
            old(self).layerstack.can_resize(m.top, m.right, m.bottom, m.left),
        ensures
            final(self).wf(),
            Self::next(
                old(self).layerstack,
                final(self).layerstack,
                Message { user_id: 0, body: Body::CanvasResize(*m) },
            ),
    {
        if let Some(ls) = self.layerstack.resized(m.top, m.right, m.bottom, m.left) {
            self.layerstack = ls;
        }
    }

    fn handle_layer_create(&mut self, m: &LayerCreateMessage)
        requires
            old(self).wf(),
        ensures
            final(self).wf(),
            Self::created(old(self).layerstack, final(self).layerstack, *m),
    {
        let fill = premultiply(m.fill);
        self.layerstack.add_layer(m.id as i32, fill);
    }

    fn handle_layer_attributes(&mut self, m: &LayerAttributesMessage)
        requires
            old(self).wf(),
        ensures
            final(self).wf(),
            layer_changed(
                old(self).layerstack,
                final(self).layerstack,
                m.id as i32,
                |a: Layer, b: Layer|
                    exists|v: Seq<bool>| #[trigger] attributes_set(a, b, *m, v),
            ),
    {
        let ghost before = self.layerstack;
        if let Some(i) = self.layerstack.find_layer_index(m.id as i32) {
            let mut l = self.take_layer(i);
            let ghost a = l;
            let v = change_attributes(
                &mut l,
                m.sublayer as i32,
                m.opacity,
                mode_or_normal(m.blend),
                m.flags & LayerAttributesMessage::FLAGS_CENSOR != 0,
                m.flags & LayerAttributesMessage::FLAGS_FIXED != 0,
            );
            self.put_layer(i, l, Ghost(before));
            proof {
                Self::lemma_first_unique(before.layers@, m.id as i32, i as int);
                assert(self.layerstack.layers@[i as int] == l);
                assert(attributes_set(a, l, *m, v@));
            }
        }
    }

    fn handle_puttile(&mut self, user: UserID, m: &PutTileMessage)
        requires
            old(self).wf(),
            m.image@.len() == 4,
            found_layer_meets(
                old(self).layerstack,
                m.layer as i32,
                |l: Layer| m.row * l.xtiles() + m.col <= u32::MAX,
            ),
        ensures
            final(self).wf(),
            Self::tile_put(old(self).layerstack, final(self).layerstack, user, *m),
    {
        let ghost before = self.layerstack;
        let c: u32 = m.image[0] as u32 * 0x100_0000 + m.image[1] as u32 * 0x1_0000
            + m.image[2] as u32 * 256 + m.image[3] as u32;
        let tile = Tile::new(premultiply(c), user);
        proof {
            assert(is_tile_of(tile, premultiplied_color(solid_tile_color(m.image@)), user));
        }
        if let Some(i) = self.layerstack.find_layer_index(m.layer as i32) {
            let mut l = self.take_layer(i);
            proof {
                assert(first_with_id(before.layers@, m.layer as i32, i as int));
                assert(m.row * l.xtiles() + m.col <= u32::MAX);
            }
            put_tile(&mut l, m.sublayer as i32, m.col as u32, m.row as u32, m.repeat as u32, &tile);
            self.put_layer(i, l, Ghost(before));
            proof {
                Self::lemma_first_unique(before.layers@, m.layer as i32, i as int);
                assert(self.layerstack.layers@[i as int] == l);
            }
        }
        proof {
            assert(layer_changed(
                before,
                self.layerstack,
                m.layer as i32,
                |a: Layer, b: Layer|
                    put_tile_result(a, b, m.sublayer as i32, m.col as u32, m.row as u32, m.repeat as u32, tile),
            ));
            let mm = *m;
            assert(is_tile_of(tile, premultiplied_color(solid_tile_color(mm.image@)), user));
            assert(layer_changed(
                before,
                self.layerstack,
                mm.layer as i32,
                |a: Layer, b: Layer|
                    put_tile_result(a, b, mm.sublayer as i32, mm.col as u32, mm.row as u32, mm.repeat as u32, tile),
            ));
            assert(exists|t: Tile|
                #[trigger] is_tile_of(t, premultiplied_color(solid_tile_color(mm.image@)), user)
                    && layer_changed(
                    before,
                    self.layerstack,
                    mm.layer as i32,
                    |a: Layer, b: Layer|
                        put_tile_result(a, b, mm.sublayer as i32, mm.col as u32, mm.row as u32, mm.repeat as u32, t),
                ));
        }
    }

    fn handle_background(&mut self, p: &Vec<u8>)
        requires
            old(self).wf(),
            p@.len() == 4,
        ensures
            final(self).wf(),
            final(self).layerstack.layers@ == old(self).layerstack.layers@,
            final(self).layerstack.annotations@ == old(self).layerstack.annotations@,
            final(self).layerstack.width == old(self).layerstack.width,
            final(self).layerstack.height == old(self).layerstack.height,
            is_tile_of(final(self).layerstack.background, premultiplied_color(solid_tile_color(p@)), 0),
    {
        let c: u32 = p[0] as u32 * 0x100_0000 + p[1] as u32 * 0x1_0000 + p[2] as u32 * 256
            + p[3] as u32;
        self.layerstack.background = Tile::new(premultiply(c), 0);
    }

    fn handle_fillrect(&mut self, user: UserID, m: &FillRectMessage)
        requires
            old(self).wf(),
            m.w == 0 || m.h == 0 || found_layer_meets(
                old(self).layerstack,
                m.layer as i32,
                |l: Layer| can_fill(l, *m),
            ),
        ensures
            final(self).wf(),
            Self::next(
                old(self).layerstack,
                final(self).layerstack,
                Message { user_id: user, body: Body::FillRect(*m) },
            ),
    {
        if m.w == 0 || m.h == 0 {
            return;
        }
        let ghost before = self.layerstack;
        if let Some(i) = self.layerstack.find_layer_index(m.layer as i32) {
            let mut l = self.take_layer(i);
            proof {
                assert(first_with_id(before.layers@, m.layer as i32, i as int));
                assert(can_fill(l, *m));
            }
            let rect = Rectangle { x: m.x as i32, y: m.y as i32, w: m.w as i32, h: m.h as i32 };
            let ghost a = l;
            let r = fill_rect(&mut l, user, premultiply(m.color), mode_or_normal(m.mode), &rect);
            self.put_layer(i, l, Ghost(before));
            proof {
                Self::lemma_first_unique(before.layers@, m.layer as i32, i as int);
                assert(self.layerstack.layers@[i as int] == l);
                assert(filled_with(a, l, *m, r));
            }
        }
    }

    fn handle_drawdabs_pixel(&mut self, user: UserID, m: &DrawDabsPixelMessage, square: bool)
        requires
            old(self).wf(),
            found_layer_meets(
                old(self).layerstack,
                m.layer as i32,
                |l: Layer| can_draw_pixels(l, user, *m),
            ),
        ensures
            final(self).wf(),
            layer_changed(
                old(self).layerstack,
                final(self).layerstack,
                m.layer as i32,
                |a: Layer, b: Layer| drawdabs_pixel_result(a, b, user, *m, square),
            ),
    {
        let ghost before = self.layerstack;
        if let Some(i) = self.layerstack.find_layer_index(m.layer as i32) {
            let mut l = self.take_layer(i);
            proof {
                assert(first_with_id(before.layers@, m.layer as i32, i as int));
                assert(can_draw_pixels(l, user, *m));
            }
            drawdabs_pixel(&mut l, user, m, square);
            self.put_layer(i, l, Ghost(before));
            proof {
                Self::lemma_first_unique(before.layers@, m.layer as i32, i as int);
                assert(self.layerstack.layers@[i as int] == l);
            }
        }
    }

    /// Draw a classic brush stroke, given the masks shaped from its dabs,
    /// onto the first layer with its ID; nothing changes when there is none
    pub fn receive_classic(&mut self, user: UserID, m: &DrawDabsClassicMessage, masks: &Vec<PlacedMask>)
        requires
            old(self).wf(),
            old(self).accepts_classic(user, *m, masks@),
        ensures
            final(self).wf(),
            Self::classic_drawn(old(self).layerstack, final(self).layerstack, user, *m, masks@),
    {
        let ghost before = self.layerstack;
        if let Some(i) = self.layerstack.find_layer_index(m.layer as i32) {
            let mut l = self.take_layer(i);
            proof {
                assert(first_with_id(before.layers@, m.layer as i32, i as int));
                assert(can_draw_classic(l, user, *m));
            }
            drawdabs_classic(&mut l, user, m, masks);
            self.put_layer(i, l, Ghost(before));
            proof {
                Self::lemma_first_unique(before.layers@, m.layer as i32, i as int);
                assert(self.layerstack.layers@[i as int] == l);
            }
        }
    }

    /// Whether this canvas accepts a classic brush stroke with the given
    /// masks (see `accepts_classic`)
    pub fn can_receive_classic(&self, user: UserID, m: &DrawDabsClassicMessage, masks: &Vec<PlacedMask>) -> (r: bool)
        requires
            self.wf(),
        ensures
            r == self.accepts_classic(user, *m, masks@),
    {
        let mut k: usize = 0;
        while k < masks.len()
            invariant
                k <= masks@.len(),
                forall|i: int|
                    0 <= i < k ==> {
                        &&& (#[trigger] masks@[i]).mask.wf()
                        &&& masks@[i].x + masks@[i].mask.diameter <= i32::MAX
                        &&& masks@[i].y + masks@[i].mask.diameter <= i32::MAX
                    },
            decreases masks@.len() - k,
        {
            let pm = &masks[k];
            proof {
                assert(pm.mask.diameter as u64 * pm.mask.diameter as u64 <= u64::MAX) by (nonlinear_arith)
                    requires
                        pm.mask.diameter <= u32::MAX,
                ;
            }
            if pm.mask.mask.len() as u64 != pm.mask.diameter as u64 * pm.mask.diameter as u64
                || pm.x as i64 + pm.mask.diameter as i64 > i32::MAX as i64 || pm.y as i64
                + pm.mask.diameter as i64 > i32::MAX as i64 {
                return false;
            }
            k += 1;
        }
        let ls = &self.layerstack;
        match ls.find_layer_index(m.layer as i32) {
            Some(i) => {
                proof {
                    Self::lemma_first_unique(ls.layers@, m.layer as i32, i as int);
                }
                let l = &ls.layers[i];
                if m.color / 0x100_0000 > 0 {
                    return user != 0;
                }
                let mode = mode_or_normal(m.mode);
                match mode {
                    Blendmode::Normal | Blendmode::Erase => true,
                    Blendmode::Behind => layer_premultiplied(l),
                    _ => false,
                }
            },
            None => true,
        }
    }

    /// Only one index holds the first layer with a given ID
    proof fn lemma_first_unique(layers: Seq<Layer>, id: i32, i: int)
        requires
            first_with_id(layers, id, i),
        ensures
            forall|j: int| first_with_id(layers, id, j) ==> j == i,
    {
        assert forall|j: int| first_with_id(layers, id, j) implies j == i by {
            if j < i {
                assert(layers[j].id != id);
            } else if j > i {
                assert(layers[i].id != id);
            }
        }
    }

    /// Whether this canvas accepts the message (see `accepts`): tests what
    /// `receive_message` asks, so that a caller can skip what it cannot do
    pub fn can_receive(&self, msg: &Message) -> (r: bool)
        requires
            self.wf(),
        ensures
            r == self.accepts(*msg),
    {
        let ls = &self.layerstack;
        match &msg.body {
            Body::CanvasResize(m) => ls.can_resize_exec(m.top, m.right, m.bottom, m.left),
            Body::LayerCreate(_) => true,
            Body::LayerAttributes(_) => true,
            Body::PutTile(m) => {
                if m.image.len() != 4 {
                    return false;
                }
                match ls.find_layer_index(m.layer as i32) {
                    Some(i) => {
                        let xt = Tile::div_up(ls.layers[i].width) as u64;
                        proof {
                            let l = ls.layers@[i as int];
                            assert(l.wf());
                            Self::lemma_first_unique(ls.layers@, m.layer as i32, i as int);
                            assert(xt <= 0x400_0000);
                            assert(m.row as u64 * xt <= 0x10_0000_0000_0000) by (nonlinear_arith)
                                requires
                                    m.row <= 0xffff,
                                    xt <= 0x400_0000,
                            ;
                        }
                        m.row as u64 * xt + m.col as u64 <= u32::MAX as u64
                    },
                    None => true,
                }
            },
            Body::CanvasBackground(p) => p.len() == 4,
            Body::FillRect(m) => {
                if m.w == 0 || m.h == 0 {
                    return true;
                }
                match ls.find_layer_index(m.layer as i32) {
                    Some(i) => {
                        proof {
                            Self::lemma_first_unique(ls.layers@, m.layer as i32, i as int);
                        }
                        Self::can_fill_exec(&ls.layers[i], m)
                    },
                    None => true,
                }
            },
            Body::DrawDabsPixel(m) | Body::DrawDabsPixelSquare(m) => match ls.find_layer_index(
                m.layer as i32,
            ) {
                Some(i) => {
                    proof {
                        Self::lemma_first_unique(ls.layers@, m.layer as i32, i as int);
                    }
                    Self::can_draw_pixels_exec(&ls.layers[i], msg.user_id, m)
                },
                None => true,
            },
            Body::UndoPoint | Body::PenUp | Body::Join(_) | Body::SessionOwner(_) | Body::Chat(_)
            | Body::TrustedUsers(_) | Body::PrivateChat(_) | Body::Interval(_) | Body::LaserTrail(
                _,
            ) | Body::MovePointer(_) | Body::Marker(_) | Body::UserACL(_) | Body::LayerACL(_)
            | Body::FeatureAccessLevels(_) | Body::Filtered(_) => true,
            _ => false,
        }
    }

    /// Whether a fill message can be applied to a layer
    fn can_fill_exec(l: &Layer, m: &FillRectMessage) -> (r: bool)
        requires
            l.wf(),
        ensures
            r == can_fill(*l, *m),
    {
        let mode = mode_or_normal(m.mode);
        let integer = match mode {
            Blendmode::Normal | Blendmode::Erase | Blendmode::Behind | Blendmode::Replace => true,
            _ => false,
        };
        if !integer {
            return false;
        }
        if let Blendmode::Normal = mode {
            if !is_premultiplied(premultiply(m.color)) {
                return false;
            }
        }
        if let Blendmode::Behind = mode {
            if !layer_premultiplied(l) {
                return false;
            }
        }
        let x = m.x as i32 as i64;
        let y = m.y as i32 as i64;
        let w = m.w as i32 as i64;
        let h = m.h as i32 as i64;
        0 <= w && 0 <= h && x + w <= i32::MAX as i64 && y + h <= i32::MAX as i64
    }

    /// Whether a pixel stroke can be drawn onto a layer
    fn can_draw_pixels_exec(l: &Layer, user: UserID, m: &DrawDabsPixelMessage) -> (r: bool)
        requires
            l.wf(),
        ensures
            r == can_draw_pixels(*l, user, *m),
    {
        if !steps_fit_exec(m) {
            return false;
        }
        if m.color / 0x100_0000 > 0 {
            return user != 0;
        }
        let mode = match Blendmode::try_from_u8(m.mode) {
            Some(md) => md,
            None => Blendmode::Normal,
        };
        proof {
            if exists|md: Blendmode| blendmode_number(md) == m.mode {
                let c = choose|md: Blendmode| blendmode_number(md) == m.mode;
                lemma_blendmode_number_injective(c, mode);
            }
            assert(mode == stroke_mode(m.mode));
        }
        match mode {
            Blendmode::Normal | Blendmode::Erase => true,
            Blendmode::Behind => layer_premultiplied(l),
            _ => false,
        }
    }
}

/// Whether a pixel is premultiplied
pub fn is_premultiplied(c: u32) -> (r: bool)
    ensures
        r == premultiplied(c),
{
    let a = c / 0x100_0000;
    (c / 0x1_0000) % 256 <= a && (c / 256) % 256 <= a && c % 256 <= a
}

/// Whether every pixel of a layer is premultiplied
pub fn layer_premultiplied(l: &Layer) -> (r: bool)
    requires
        l.wf(),
    ensures
        r == tiles_premultiplied(*l),
{
    let mut t: usize = 0;
    while t < l.tiles.len()
        invariant
            l.wf(),
            t <= l.tiles@.len(),
            forall|tt: int, j: int|
                0 <= tt < t && 0 <= j < 4096 ==> premultiplied(#[trigger] l.spec_tiles()[tt].spec_pixel(j)),
        decreases l.tiles@.len() - t,
    {
        proof {
            assert(l.spec_tiles()[t as int].wf());
        }
        let mut j: usize = 0;
        while j < 4096
            invariant
                l.wf(),
                t < l.tiles@.len(),
                l.spec_tiles()[t as int].wf(),
                j <= 4096,
                forall|tt: int, jj: int|
                    0 <= tt < t && 0 <= jj < 4096 ==> premultiplied(#[trigger] l.spec_tiles()[tt].spec_pixel(jj)),
                forall|jj: int| 0 <= jj < j ==> premultiplied(#[trigger] l.spec_tiles()[t as int].spec_pixel(jj)),
            decreases 4096 - j,
        {
            if !is_premultiplied(l.tiles[t].pixel_value(j)) {
                return false;
            }
            j += 1;
        }
        t += 1;
    }
    true
}

/// Whether the positions of a pixel stroke stay well inside the 32 bit range
pub fn steps_fit_exec(m: &DrawDabsPixelMessage) -> (r: bool)
    ensures
        r == steps_fit(m.x as int, m.y as int, m.dabs@),
{
    let mut x = m.x as i64;
    let mut y = m.y as i64;
    let lo = i32::MIN as i64 + 128;
    let hi = i32::MAX as i64 - 256;
    if x < lo || x > hi || y < lo || y > hi {
        proof {
            assert(dab_steps(m.dabs@, 0, true) == 0 && dab_steps(m.dabs@, 0, false) == 0);
        }
        return false;
    }
    let mut i: usize = 0;
    while i < m.dabs.len()
        invariant
            i <= m.dabs@.len(),
            lo == i32::MIN + 128,
            hi == i32::MAX - 256,
            x == m.x + dab_steps(m.dabs@, i as nat, true),
            y == m.y + dab_steps(m.dabs@, i as nat, false),
            forall|n: nat|
                n <= i ==> lo <= m.x + #[trigger] dab_steps(m.dabs@, n, true) <= hi && lo <= m.y
                    + dab_steps(m.dabs@, n, false) <= hi,
        decreases m.dabs@.len() - i,
    {
        x = x + m.dabs[i].x as i64;
        y = y + m.dabs[i].y as i64;
        proof {
            assert(x == m.x + dab_steps(m.dabs@, (i + 1) as nat, true));
            assert(y == m.y + dab_steps(m.dabs@, (i + 1) as nat, false));
        }
        if x < lo || x > hi || y < lo || y > hi {
            return false;
        }
        i += 1;
        proof {
            assert forall|n: nat| n <= i implies lo <= m.x + #[trigger] dab_steps(m.dabs@, n, true) <= hi
                && lo <= m.y + dab_steps(m.dabs@, n, false) <= hi by {
                if n == i {
                }
            }
        }
    }
    true
}

/// The canvas before any message: no size, no layers, no annotations and a
/// transparent background
pub open spec fn is_empty_canvas(ls: LayerStack) -> bool {
    &&& ls.width == 0 && ls.height == 0
    &&& ls.layers@.len() == 0
    &&& ls.annotations@.len() == 0
    &&& ls.background == Tile::Blank
}

/// The masks given for message `i`: none past the end of the list
pub open spec fn masks_at(masks: Seq<Vec<PlacedMask>>, i: int) -> Seq<PlacedMask> {
    if 0 <= i < masks.len() {
        masks[i]@
    } else {
        Seq::empty()
    }
}

/// One step of a run: the canvas applies the message when it accepts it
/// (see `CanvasState::next`, and for a classic brush stroke, drawn with the
/// given masks, `CanvasState::classic_drawn`) and is left as it was
/// otherwise
pub open spec fn run_step(before: LayerStack, after: LayerStack, msg: Message, masks: Seq<PlacedMask>) -> bool {
    match msg.body {
        Body::DrawDabsClassic(m) => if (CanvasState { layerstack: before }).accepts_classic(
            msg.user_id,
            m,
            masks,
        ) {
            CanvasState::classic_drawn(before, after, msg.user_id, m, masks)
        } else {
            after == before
        },
        _ => if (CanvasState { layerstack: before }).accepts(msg) {
            CanvasState::next(before, after, msg)
        } else {
            after == before
        },
    }
}

/// Whether `states` is the run of the canvas over `ms` from the empty
/// canvas, one step per message, with `masks[i]` the masks of message `i`
/// when it is a classic brush stroke
pub open spec fn is_run(ms: Seq<Message>, masks: Seq<Vec<PlacedMask>>, states: Seq<LayerStack>) -> bool {
    &&& states.len() == ms.len() + 1
    &&& is_empty_canvas(states[0])
    &&& forall|i: int|
        0 <= i < ms.len() ==> run_step(states[i], #[trigger] states[i + 1], ms[i], masks_at(masks, i))
}

/// Play a sequence of messages on an empty canvas: apply each one the
/// canvas accepts, in order, skipping the others. A classic brush stroke is
/// drawn with the masks given for it in `masks`, at the same index (none
/// past the list's end). Returns the final layer stack.
pub fn play_messages(ms: &[Message], masks: &[Vec<PlacedMask>]) -> (ls: LayerStack)
    ensures
        ls.wf(),
        exists|states: Seq<LayerStack>| #[trigger] is_run(ms@, masks@, states) && states.last() == ls,
{
    let mut canvas = CanvasState::new();
    let ghost mut states: Seq<LayerStack> = seq![canvas.layerstack];
    let no_masks: Vec<PlacedMask> = Vec::new();
    let mut i: usize = 0;
    while i < ms.len()
        invariant
            canvas.wf(),
            i <= ms@.len(),
            no_masks@.len() == 0,
            states.len() == i + 1,
            states.last() == canvas.layerstack,
            is_empty_canvas(states[0]),
            forall|k: int|
                0 <= k < i ==> run_step(states[k], #[trigger] states[k + 1], ms@[k], masks_at(masks@, k)),
        decreases ms@.len() - i,
    {
        let ghost before = canvas.layerstack;
        let mk = if i < masks.len() {
            &masks[i]
        } else {
            &no_masks
        };
        assert(mk@ == masks_at(masks@, i as int));
        match &ms[i].body {
            Body::DrawDabsClassic(m) => {
                if canvas.can_receive_classic(ms[i].user_id, m, mk) {
                    canvas.receive_classic(ms[i].user_id, m, mk);
                }
            },
            _ => {
                if canvas.can_receive(&ms[i]) {
                    canvas.receive_message(&ms[i]);
                }
            },
        }
        proof {
            let old_states = states;
            states = states.push(canvas.layerstack);
            assert forall|k: int| 0 <= k < i + 1 implies run_step(
                states[k],
                #[trigger] states[k + 1],
                ms@[k],
                masks_at(masks@, k),
            ) by {
                if k < i {
                    assert(states[k] == old_states[k] && states[k + 1] == old_states[k + 1]);
                } else {
                    assert(states[k] == before);
                }
            }
        }
        i += 1;
    }
    proof {
        assert(is_run(ms@, masks@, states));
    }
    canvas.layerstack
}

/// Render a sequence of messages: play them (see `play_messages`) and
/// flatten the final canvas into an image (row by row, with its width and
/// height). `None` exactly when the final canvas cannot be flattened in
/// integer arithmetic or its image does not fit in memory.
pub fn render_messages(ms: &[Message], masks: &[Vec<PlacedMask>]) -> (img: Option<(Vec<u32>, u32, u32)>)
    ensures
        exists|states: Seq<LayerStack>|
            {
                &&& #[trigger] is_run(ms@, masks@, states)
                &&& img is Some <==> (states.last().flattens() && states.last().width
                    * states.last().height <= usize::MAX)
                &&& img matches Some(r) ==> {
                    &&& r.1 == states.last().width && r.2 == states.last().height
                    &&& r.0@.len() == r.1 * r.2
                    &&& forall|x: int, y: int|
                        0 <= x < r.1 && 0 <= y < r.2 ==> #[trigger] r.0@[y * r.1 + x]
                            == crate::paint::layerstack::image_pixel(states.last(), x, y)
                }
            },
{
    let ls = play_messages(ms, masks);
    let ghost states = choose|states: Seq<LayerStack>| #[trigger] is_run(ms@, masks@, states) && states.last() == ls;
    if !ls.can_flatten() {
        assert(is_run(ms@, masks@, states));
        return None;
    }
    let r = ls.to_image();
    assert(is_run(ms@, masks@, states));
    Some(r)
}

} // verus!
