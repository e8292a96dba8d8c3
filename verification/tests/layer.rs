use dpcore::paint::blendmode::Blendmode;
use dpcore::paint::brushmask::BrushMask;
use dpcore::paint::editlayer::{draw_brush_dab, put_tile};
use dpcore::paint::layer::Layer;
use dpcore::paint::rect::Rectangle;
use dpcore::paint::tile::{Tile, TILE_SIZE, TILE_SIZEI};

const WHITE_PIXEL: [u8; 4] = [255, 255, 255, 255];
const ZERO_PIXEL: [u8; 4] = [0, 0, 0, 0];
const RED: u32 = 0xffff0000;
const BLACK: u32 = 0xff000000;

fn set_pixel(layer: &mut Layer, i: u32, j: u32, x: i32, y: i32, value: u32) {
    let xtiles = Tile::div_up(layer.width()) as usize;
    layer.tiles[j as usize * xtiles + i as usize].rect_iter_mut(0, &Rectangle::new(x, y, 1, 1), &vec![vec![value]]);
}

#[test]
fn test_solid_expand() {
    let layer = Layer::new(0, TILE_SIZE, TILE_SIZE, RED);
    let layer2 = layer.resized(10, 10, 0, 0);
    for t in layer2.tiles.iter() {
        assert_eq!(t.solid_color(), Some(RED));
    }
}

#[test]
fn test_fast_expand() {
    let t = 0;
    let mut layer = Layer::new(0, TILE_SIZE, TILE_SIZE, t);
    set_pixel(&mut layer, 0, 0, 1, 1, 0xffffffff);

    let layer2 = layer.resized(TILE_SIZEI, TILE_SIZEI, 2 * TILE_SIZEI, TILE_SIZEI);

    assert_eq!(layer2.width(), TILE_SIZE * 3);
    assert_eq!(layer2.height(), TILE_SIZE * 4);
    assert_eq!(layer2.tile(0, 0).solid_color(), Some(t));
    assert_eq!(layer2.tile(1, 0).solid_color(), Some(t));
    assert_eq!(layer2.tile(2, 0).solid_color(), Some(t));

    assert_eq!(layer2.tile(0, 1).solid_color(), Some(t));
    assert_eq!(layer2.tile(1, 1).solid_color(), None);
    assert_eq!(layer2.tile(2, 1).solid_color(), Some(t));

    assert_eq!(layer2.tile(0, 2).solid_color(), Some(t));
    assert_eq!(layer2.tile(1, 2).solid_color(), Some(t));
    assert_eq!(layer2.tile(2, 2).solid_color(), Some(t));

    assert_eq!(layer2.tile(0, 3).solid_color(), Some(t));
    assert_eq!(layer2.tile(1, 3).solid_color(), Some(t));
    assert_eq!(layer2.tile(2, 3).solid_color(), Some(t));
}

#[test]
fn test_fast_contract() {
    let t = 0;
    let mut layer = Layer::new(0, TILE_SIZE * 3, TILE_SIZE * 3, t);
    for y in 0..3 {
        for x in 0..3 {
            set_pixel(&mut layer, x, y, 0, 0, 0xffffffff);
        }
    }

    let layer2 = layer.resized(-TILE_SIZEI, -TILE_SIZEI * 2, TILE_SIZEI, 0);

    assert_eq!(layer2.width(), TILE_SIZE);
    assert_eq!(layer2.height(), TILE_SIZE * 3);
    assert_eq!(layer2.tile(0, 0).solid_color(), None);
    assert_eq!(layer2.tile(0, 1).solid_color(), None);
    assert_eq!(layer2.tile(0, 2).solid_color(), Some(t));
}

#[test]
fn test_slow_expand() {
    let mut layer = Layer::new(0, TILE_SIZE, TILE_SIZE, BLACK);
    set_pixel(&mut layer, 0, 0, 0, 0, 0xffffffff);

    let layer = layer.resized(10, 0, 0, 5);

    assert_eq!(layer.width, TILE_SIZE + 5);
    assert_eq!(layer.height, TILE_SIZE + 10);

    assert_eq!(layer.pixel_at(0, 0), ZERO_PIXEL);
    assert_eq!(layer.pixel_at(5, 10), WHITE_PIXEL);
}

#[test]
fn test_slow_contract() {
    let mut layer = Layer::new(0, TILE_SIZE, TILE_SIZE, 0);
    set_pixel(&mut layer, 0, 0, 5, 10, 0xffffffff);

    let layer = layer.resized(-10, 0, 0, -5);

    assert_eq!(layer.width, TILE_SIZE - 5);
    assert_eq!(layer.height, TILE_SIZE - 10);

    assert_eq!(layer.pixel_at(5, 10), ZERO_PIXEL);
    assert_eq!(layer.pixel_at(0, 0), WHITE_PIXEL);
}

#[test]
fn layer_new_and_attributes() {
    let l = Layer::new(7, 100, 30, 0x80_402010);
    assert_eq!(l.id, 7);
    assert_eq!(l.size(), (100, 30));
    assert_eq!(l.tiles.len(), 2);
    assert_eq!(l.pixel_at(99, 29), [0x10, 0x20, 0x40, 0x80]);
    assert_eq!(l.solid_color(), Some(0x80_402010));
    assert!(l.is_visible());
    let blank = Layer::new(1, 10, 10, 0x00_ffffff);
    assert!(matches!(blank.tiles[0], Tile::Blank));
    assert_eq!(blank.solid_color(), Some(0));
}

#[test]
fn resize_keeps_attributes_and_sublayers() {
    let mut l = Layer::new(3, 64, 64, 0);
    l.opacity = 128;
    l.title = "sketch".to_string();
    put_tile(&mut l, 5, 0, 0, 0, &Tile::new_solid(RED, 5));
    let r = l.resized(0, 64, 0, 0);
    assert_eq!(r.opacity, 128);
    assert_eq!(r.title, "sketch");
    assert_eq!(r.sublayers.len(), 1);
    assert_eq!(r.sublayers[0].size(), (128, 64));
    assert_eq!(r.sublayers[0].pixel_at(10, 10), [0, 0, 255, 255]);
}

#[test]
fn put_tile_replaces_a_stretch() {
    let mut l = Layer::new(0, 128, 128, 0);
    let red = Tile::new_solid(RED, 2);
    assert_eq!(put_tile(&mut l, 0, 1, 0, 1, &red), Some((1, 2)));
    assert_eq!(l.tile(0, 0).solid_color(), Some(0));
    assert_eq!(l.tile(1, 0).solid_color(), Some(RED));
    assert_eq!(l.tile(0, 1).solid_color(), Some(RED));
    assert_eq!(l.tile(1, 1).solid_color(), Some(0));
    assert_eq!(put_tile(&mut l, 0, 1, 1, 10, &red), Some((3, 3)));
    assert_eq!(l.tile(1, 1).solid_color(), Some(RED));
    assert_eq!(put_tile(&mut l, 0, 0, 5, 0, &Tile::Blank), None);
    assert_eq!(l.tile(0, 1).solid_color(), Some(RED));
    assert!(!l.has_sublayer(4));
    assert_eq!(put_tile(&mut l, 4, 0, 0, 0, &red), Some((0, 0)));
    assert!(l.has_sublayer(4));
    assert_eq!(l.tile(0, 0).solid_color(), Some(0));
    let sub = l.take_sublayer(4).unwrap();
    assert_eq!(sub.tile(0, 0).solid_color(), Some(RED));
    assert!(l.take_sublayer(4).is_none());
}

#[test]
fn brush_dab_blends_under_the_mask() {
    let mut l = Layer::new(0, 128, 128, 0);
    let mask = BrushMask::new_round_pixel(4, 255);
    let aoe = draw_brush_dab(&mut l, 1, 62, 62, &mask, RED, Blendmode::Normal);
    assert_eq!(aoe, Some(Rectangle::new(62, 62, 4, 4)));
    assert_eq!(l.pixel_at(62, 62), ZERO_PIXEL);
    assert_eq!(l.pixel_at(63, 62), [0, 0, 255, 255]);
    assert_eq!(l.pixel_at(64, 64), [0, 0, 255, 255]);
    assert_eq!(l.pixel_at(65, 65), ZERO_PIXEL);
    assert_eq!(l.pixel_at(66, 64), ZERO_PIXEL);
    assert_eq!(l.tile(1, 1).last_touched_by(), 1);

    let aoe = draw_brush_dab(&mut l, 1, -2, -2, &mask, RED, Blendmode::Normal);
    assert_eq!(aoe, Some(Rectangle::new(0, 0, 2, 2)));
    assert_eq!(l.pixel_at(0, 0), [0, 0, 255, 255]);
    assert_eq!(draw_brush_dab(&mut l, 1, 200, 0, &mask, RED, Blendmode::Normal), None);

    let erase = BrushMask::new_square_pixel(2, 255);
    draw_brush_dab(&mut l, 1, 63, 63, &erase, 0, Blendmode::Erase);
    assert_eq!(l.pixel_at(64, 64), ZERO_PIXEL);
    assert_eq!(l.pixel_at(63, 62), [0, 0, 255, 255]);

    let mut blank = Layer::new(0, 64, 64, 0);
    draw_brush_dab(&mut blank, 1, 0, 0, &erase, 0, Blendmode::Erase);
    assert!(matches!(blank.tiles[0], Tile::Blank));
}

use dpcore::paint::layerstack::{Annotation, LayerStack};

#[test]
fn test_layer_addition() {
    let mut stack = LayerStack::new(256, 256);
    stack.add_layer(1, 0);

    // Adding a layer with an existing ID does nothing
    assert!(stack.add_layer(1, 0).is_none());

    let layer = stack.get_layer(1).unwrap();

    assert!(stack.get_layer(0).is_none());
    assert_eq!(layer.width(), 256);
    assert_eq!(layer.height(), 256);
}

#[test]
fn test_layer_removal() {
    let mut stack = LayerStack::new(256, 256);
    stack.add_layer(1, 0);
    stack.add_layer(2, 0);
    stack.add_layer(3, 0);

    assert_eq!(stack.layers.len(), 3);
    stack.remove_layer(2);
    assert_eq!(stack.layers.len(), 2);
    assert!(stack.get_layer(1).is_some());
    assert!(stack.get_layer(2).is_none());
    assert!(stack.get_layer(3).is_some());
}

#[test]
fn layerstack_resize() {
    let mut stack = LayerStack::new(64, 64);
    assert_eq!(stack.add_layer(1, RED), Some(0));
    stack.annotations.push(Annotation {
        id: 1,
        text: "hi".to_string(),
        rect: Rectangle::new(5, 6, 10, 10),
        background: 0,
        protect: false,
        valign: 0,
    });
    assert!(stack.resized(0, -64, 0, 0).is_none());
    assert!(stack.resized(-70, 0, 0, 0).is_none());
    let s = stack.resized(10, 0, 0, 20).unwrap();
    assert_eq!((s.width(), s.height()), (84, 74));
    assert_eq!(s.layers[0].pixel_at(0, 0), [0, 0, 255, 255]);
    assert_eq!(s.annotations[0].rect, Rectangle::new(25, 16, 10, 10));
    assert_eq!(s.annotations[0].text, "hi");
}

use dpcore::paint::editlayer::fill_rect;

#[test]
fn test_fill_rect() {
    let mut layer = Layer::new(0, 200, 200, 0);

    fill_rect(&mut layer, 0, 0xffffffff, Blendmode::Normal, &Rectangle::new(1, 1, 198, 198));

    assert_eq!(layer.pixel_at(100, 0), ZERO_PIXEL);

    assert_eq!(layer.pixel_at(0, 1), ZERO_PIXEL);
    assert_eq!(layer.pixel_at(1, 1), WHITE_PIXEL);
    assert_eq!(layer.pixel_at(198, 1), WHITE_PIXEL);
    assert_eq!(layer.pixel_at(199, 1), ZERO_PIXEL);

    assert_eq!(layer.pixel_at(0, 198), ZERO_PIXEL);
    assert_eq!(layer.pixel_at(1, 198), WHITE_PIXEL);
    assert_eq!(layer.pixel_at(198, 198), WHITE_PIXEL);
    assert_eq!(layer.pixel_at(199, 198), ZERO_PIXEL);
    assert_eq!(layer.pixel_at(1, 199), ZERO_PIXEL);
}

#[test]
fn test_draw_brush_dab() {
    let mut layer = Layer::new(0, 128, 128, 0);
    let brush = BrushMask::new_round_pixel(4, 255);

    // Dab right at the intersection of four tiles
    draw_brush_dab(&mut layer, 0, 62, 62, &brush, 0xffffffff, Blendmode::Normal);

    assert_eq!(layer.pixel_at(62, 62), ZERO_PIXEL);
    assert_eq!(layer.pixel_at(63, 62), WHITE_PIXEL);
    assert_eq!(layer.pixel_at(64, 62), WHITE_PIXEL);
    assert_eq!(layer.pixel_at(65, 62), ZERO_PIXEL);

    assert_eq!(layer.pixel_at(62, 63), WHITE_PIXEL);
    assert_eq!(layer.pixel_at(63, 63), WHITE_PIXEL);
    assert_eq!(layer.pixel_at(64, 63), WHITE_PIXEL);
    assert_eq!(layer.pixel_at(65, 63), WHITE_PIXEL);

    assert_eq!(layer.pixel_at(62, 64), WHITE_PIXEL);
    assert_eq!(layer.pixel_at(63, 64), WHITE_PIXEL);
    assert_eq!(layer.pixel_at(64, 64), WHITE_PIXEL);
    assert_eq!(layer.pixel_at(65, 64), WHITE_PIXEL);

    assert_eq!(layer.pixel_at(62, 65), ZERO_PIXEL);
    assert_eq!(layer.pixel_at(63, 65), WHITE_PIXEL);
    assert_eq!(layer.pixel_at(64, 65), WHITE_PIXEL);
    assert_eq!(layer.pixel_at(65, 65), ZERO_PIXEL);
}

#[test]
fn fill_rect_modes_and_cropping() {
    let mut layer = Layer::new(0, 100, 100, 0xff000000);
    let aoe = fill_rect(&mut layer, 2, 0x80808080, Blendmode::Normal, &Rectangle::new(-10, 90, 20, 50));
    assert_eq!(aoe, Some(Rectangle::new(0, 90, 10, 10)));
    assert_eq!(layer.pixel_at(0, 95), [0x80, 0x80, 0x80, 0xff]);
    assert_eq!(layer.pixel_at(10, 95), [0, 0, 0, 0xff]);
    assert_eq!(fill_rect(&mut layer, 2, 0, Blendmode::Normal, &Rectangle::new(100, 0, 5, 5)), None);
    fill_rect(&mut layer, 2, 0xffffffff, Blendmode::Erase, &Rectangle::new(0, 0, 1, 1));
    assert_eq!(layer.pixel_at(0, 0), ZERO_PIXEL);
    fill_rect(&mut layer, 2, 0x40404040, Blendmode::Replace, &Rectangle::new(1, 0, 1, 1));
    assert_eq!(layer.pixel_at(1, 0), [0x40, 0x40, 0x40, 0x40]);
}

use dpcore::paint::editlayer::{merge, merge_sublayer, remove_sublayer};

#[test]
fn test_layer_merge() {
    let mut btm = Layer::new(0, 128, 128, BLACK);
    let mut top = Layer::new(0, 128, 128, RED);
    top.opacity = 127; // 0.5 as a fraction of 255, rounded down

    let aoe = merge(&mut btm, &top);

    assert_eq!(btm.pixel_at(0, 0), [0, 0, 127, 255]);
    assert_eq!(aoe, Some(vec![true; 4]));
}

#[test]
fn tile_merge_cases() {
    let top = Tile::new_solid(RED, 9);
    let mut blank = Tile::Blank;
    blank.merge(&top, 255, Blendmode::Normal);
    assert_eq!(blank.solid_color(), Some(RED));
    assert_eq!(blank.last_touched_by(), 9);

    let mut blank = Tile::Blank;
    blank.merge(&top, 255, Blendmode::Erase);
    assert!(matches!(blank, Tile::Blank));

    let mut t = Tile::new_solid(RED, 1);
    t.merge(&Tile::Blank, 255, Blendmode::Normal);
    assert_eq!(t.solid_color(), Some(RED));
    t.merge(&top, 255, Blendmode::Erase);
    assert_eq!(t.solid_color(), Some(0));
    assert_eq!(t.last_touched_by(), 1);
}

#[test]
fn sublayer_merge_and_removal() {
    let mut l = Layer::new(0, 64, 64, 0);
    put_tile(&mut l, 2, 0, 0, 0, &Tile::new_solid(RED, 2));
    assert_eq!(merge_sublayer(&mut l, 3), None);
    assert_eq!(merge_sublayer(&mut l, 2), Some(vec![true]));
    assert!(!l.has_sublayer(2));
    assert_eq!(l.pixel_at(3, 3), [0, 0, 255, 255]);

    put_tile(&mut l, 4, 0, 0, 0, &Tile::Blank);
    assert_eq!(remove_sublayer(&mut l, 4), Some(vec![false]));
    assert_eq!(remove_sublayer(&mut l, 4), None);
    assert_eq!(l.pixel_at(3, 3), [0, 0, 255, 255]);
}

use dpcore::canvas::brushes::drawdabs_pixel;
use dpcore::protocol::message::{DrawDabsPixelMessage, PixelDab};

fn stroke(color: u32, mode: u8) -> DrawDabsPixelMessage {
    DrawDabsPixelMessage {
        layer: 1,
        x: 10,
        y: 10,
        color,
        mode,
        dabs: vec![
            PixelDab { x: 0, y: 0, size: 1, opacity: 255 },
            PixelDab { x: 5, y: 0, size: 3, opacity: 255 },
            PixelDab { x: 5, y: 0, size: 3, opacity: 128 },
        ],
    }
}

#[test]
fn pixel_stroke_direct() {
    let mut l = Layer::new(1, 64, 64, 0);
    drawdabs_pixel(&mut l, 1, &stroke(0x00ff0000, 1), false);
    assert_eq!(l.pixel_at(10, 10), [0, 0, 255, 255]);
    assert_eq!(l.pixel_at(11, 10), ZERO_PIXEL);
    // size 3 round dab at (15, 10): corner (14, 9), all of it inside the circle
    assert_eq!(l.pixel_at(14, 9), [0, 0, 255, 255]);
    assert_eq!(l.pixel_at(16, 11), [0, 0, 255, 255]);
    // half opacity dab at (20, 10)
    assert_eq!(l.pixel_at(20, 10), [0, 0, 128, 128]);
    assert_eq!(l.sublayers.len(), 0);

    let mut sq = Layer::new(1, 64, 64, 0);
    drawdabs_pixel(&mut sq, 1, &stroke(0x0000ff00, 200), true);
    assert_eq!(sq.pixel_at(14, 9), [0, 255, 0, 255]);
}

#[test]
fn pixel_stroke_indirect() {
    let mut l = Layer::new(1, 64, 64, 0);
    drawdabs_pixel(&mut l, 7, &stroke(0x80ff0000, 0), false);
    assert_eq!(l.pixel_at(10, 10), ZERO_PIXEL);
    assert!(l.has_sublayer(7));
    let sub = l.take_sublayer(7).unwrap();
    assert_eq!(sub.opacity, 0x80);
    assert_eq!(sub.blendmode, Blendmode::Erase);
    assert_eq!(sub.pixel_at(10, 10), [0, 0, 255, 255]);
}

#[test]
fn opaque_color_conversion_is_exact() {
    // A color made fully opaque keeps its channels through the float conversion
    for c in 0..=255u32 {
        let f = c as f32 / 255.0;
        let af = 1.0f32 * 255.0;
        assert_eq!((f * af) as u8 as u32, c);
    }
}

use dpcore::canvas::state::{premultiply, render_messages, CanvasState};
use dpcore::protocol::message::{
    Body, CanvasResizeMessage, FillRectMessage, LayerAttributesMessage, LayerCreateMessage,
    Message, PutTileMessage,
};

#[test]
fn premultiply_matches_float_conversion() {
    // Color::from_argb32(c).as_pixel(), computed in f32 for every channel and alpha value
    for a in 0..=255u32 {
        for c in 0..=255u32 {
            let cf = c as f32 / 255.0;
            let af = (a as f32 / 255.0) * 255.0;
            let expected = (cf * af) as u8 as u32;
            let p = premultiply((a << 24) | (c << 16) | (c << 8) | c);
            assert_eq!(p & 0xff, expected);
            assert_eq!(p >> 24, (a as f32 / 255.0 * 255.0) as u8 as u32);
        }
    }
}

fn msg(user: u8, body: Body) -> Message {
    Message { user_id: user, body }
}

#[test]
fn canvas_state_commands() {
    let mut canvas = CanvasState::new();
    canvas.receive_message(&msg(1, Body::CanvasResize(CanvasResizeMessage { top: 0, right: 100, bottom: 64, left: 0 })));
    assert_eq!((canvas.layerstack().width(), canvas.layerstack().height()), (100, 64));
    canvas.receive_message(&msg(1, Body::LayerCreate(LayerCreateMessage {
        id: 0x0101,
        source: 0,
        fill: 0xffffffff,
        flags: 0,
        name: String::new(),
    })));
    assert_eq!(canvas.layerstack().layers.len(), 1);
    assert_eq!(canvas.layerstack().layers[0].pixel_at(5, 5), [255, 255, 255, 255]);
    canvas.receive_message(&msg(1, Body::FillRect(FillRectMessage {
        layer: 0x0101,
        mode: 1,
        x: 0,
        y: 0,
        w: 10,
        h: 10,
        color: 0xffff0000,
    })));
    assert_eq!(canvas.layerstack().layers[0].pixel_at(5, 5), [0, 0, 255, 255]);
    assert_eq!(canvas.layerstack().layers[0].pixel_at(10, 10), [255, 255, 255, 255]);
    canvas.receive_message(&msg(2, Body::PutTile(PutTileMessage {
        layer: 0x0101,
        col: 1,
        row: 0,
        repeat: 0,
        sublayer: 0,
        image: vec![0x80, 0x00, 0x00, 0xff],
    })));
    assert_eq!(canvas.layerstack().layers[0].pixel_at(70, 5), [0x80, 0, 0, 0x80]);
    canvas.receive_message(&msg(2, Body::LayerAttributes(LayerAttributesMessage {
        id: 0x0101,
        sublayer: 0,
        flags: 0,
        opacity: 100,
        blend: 2,
    })));
    assert_eq!(canvas.layerstack().layers[0].opacity, 100);
    assert_eq!(canvas.layerstack().layers[0].blendmode, Blendmode::Multiply);
    canvas.receive_message(&msg(3, Body::CanvasBackground(vec![0xff, 0, 0xff, 0])));
    assert_eq!(canvas.layerstack().background.solid_color(), Some(0xff00ff00));
    // unknown layers and empty fills change nothing
    canvas.receive_message(&msg(1, Body::FillRect(FillRectMessage {
        layer: 7,
        mode: 1,
        x: 0,
        y: 0,
        w: 10,
        h: 10,
        color: 0xff000000,
    })));
    assert_eq!(canvas.layerstack().layers[0].pixel_at(5, 5), [0, 0, 255, 255]);
    canvas.receive_message(&msg(1, Body::Chat(dpcore::protocol::message::ChatMessage {
        flags: 0,
        message: "hi".to_string(),
    })));
    assert_eq!(canvas.layerstack().layers.len(), 1);
}

#[test]
fn test_flattening() {
    let mut stack = LayerStack::new(128, 64);
    stack.background = Tile::new_solid(0xffffffff, 0);
    stack.add_layer(1, 0);
    stack.add_layer(2, 0);

    let layer = &mut stack.layers[0];
    layer.tiles[0] = Tile::new_solid(RED, 0);
    layer.opacity = 127; // 0.5 as a fraction of 255, rounded down

    let t1 = stack.flatten_tile(0, 0);
    assert_eq!(t1.pixels[0], 0xffff8080);

    let t2 = stack.flatten_tile(1, 0);
    assert_eq!(t2.pixels[0], 0xffffffff);
}

#[test]
fn stack_to_image() {
    let mut stack = LayerStack::new(70, 2);
    stack.background = Tile::new_solid(0xff000000, 0);
    stack.add_layer(1, 0);
    fill_rect(&mut stack.layers[0], 1, 0xffffffff, Blendmode::Normal, &Rectangle::new(65, 1, 5, 1));
    let (img, w, h) = stack.to_image();
    assert_eq!((w, h), (70, 2));
    assert_eq!(img.len(), 140);
    assert_eq!(img[0], 0xff000000);
    assert_eq!(img[70 + 65], 0xffffffff);
    assert_eq!(img[70 + 64], 0xff000000);
    assert_eq!(img[65], 0xff000000);
}

#[test]
fn render_a_message_sequence() {
    let ms = vec![
        msg(1, Body::CanvasResize(CanvasResizeMessage { top: 0, right: 3, bottom: 2, left: 0 })),
        msg(1, Body::CanvasBackground(vec![0xff, 0xff, 0xff, 0xff])),
        msg(1, Body::LayerCreate(LayerCreateMessage { id: 1, source: 0, fill: 0, flags: 0, name: String::new() })),
        msg(1, Body::FillRect(FillRectMessage { layer: 1, mode: 1, x: 1, y: 1, w: 1, h: 1, color: 0xff0000ff })),
        msg(1, Body::FillRect(FillRectMessage { layer: 9, mode: 1, x: 0, y: 0, w: 3, h: 2, color: 0xff000000 })),
    ];
    let (img, w, h) = render_messages(&ms, &[]).unwrap();
    assert_eq!((w, h), (3, 2));
    assert_eq!(img, vec![0xffffffff, 0xffffffff, 0xffffffff, 0xffffffff, 0xff0000ff, 0xffffffff]);
}

#[test]
fn resize_leaves_the_old_margin_behind() {
    // a layer 100 pixels wide whose tiles hold an opaque pixel past its edge
    let mut layer = Layer::new(0, 100, 64, 0);
    set_pixel(&mut layer, 1, 0, 36, 0, RED);
    set_pixel(&mut layer, 1, 0, 35, 0, BLACK);
    assert_eq!(layer.solid_color(), None);
    let grown = layer.resized(0, 50, 0, 0);
    assert_eq!(grown.size(), (150, 64));
    assert_eq!(grown.pixel_at(99, 0), [0, 0, 0, 255]);
    assert_eq!(grown.pixel_at(100, 0), ZERO_PIXEL);
    // the same with a move that is not a multiple of the tile size
    let moved = layer.resized(0, 20, 0, 30);
    assert_eq!(moved.size(), (150, 64));
    assert_eq!(moved.pixel_at(129, 0), [0, 0, 0, 255]);
    assert_eq!(moved.pixel_at(130, 0), ZERO_PIXEL);
    // moved by whole tiles: the inner tile is shared, the edge tile rebuilt
    let shifted = layer.resized(64, 0, 0, 64);
    assert_eq!(shifted.size(), (164, 128));
    assert_eq!(shifted.pixel_at(163, 64), [0, 0, 0, 255]);
    assert!(matches!(shifted.tile(0, 0), Tile::Blank));
    assert!(!matches!(shifted.tile(2, 1), Tile::Blank));
}

#[test]
fn resize_crops_and_clears_uncovered_tiles() {
    let mut layer = Layer::new(0, 128, 64, 0);
    set_pixel(&mut layer, 1, 0, 10, 10, RED);
    let cropped = layer.resized(0, -64, 0, 0);
    assert_eq!(cropped.size(), (64, 64));
    assert_eq!(cropped.solid_color(), Some(0));
    let left = layer.resized(0, 0, 0, -64);
    assert_eq!(left.pixel_at(10, 10), [0, 0, 255, 255]);
}

#[test]
fn render_refuses_a_canvas_with_a_floating_point_mode() {
    let ms = vec![
        msg(1, Body::CanvasResize(CanvasResizeMessage { top: 0, right: 2, bottom: 2, left: 0 })),
        msg(1, Body::LayerCreate(LayerCreateMessage { id: 1, source: 0, fill: 0, flags: 0, name: String::new() })),
        msg(1, Body::LayerAttributes(LayerAttributesMessage { id: 1, sublayer: 0, flags: 0, opacity: 255, blend: 2 })),
    ];
    assert!(render_messages(&ms, &[]).is_none());
    let canvas = dpcore::canvas::state::play_messages(&ms, &[]);
    assert!(!canvas.can_flatten());
    assert_eq!(canvas.layers[0].blendmode, Blendmode::Multiply);
    assert_eq!(render_messages(&ms[..2], &[]).unwrap(), (vec![0, 0, 0, 0], 2, 2));
    assert_eq!(render_messages(&[], &[]).unwrap(), (vec![], 0, 0));
}

#[test]
fn canvas_reports_what_it_cannot_receive() {
    let canvas = CanvasState::new();
    assert!(canvas.can_receive(&msg(1, Body::PenUp)));
    assert!(!canvas.can_receive(&msg(1, Body::CanvasBackground(vec![1, 2, 3]))));
    assert!(canvas.can_receive(&msg(1, Body::CanvasBackground(vec![1, 2, 3, 4]))));
}

use dpcore::paint::editlayer::draw_image;

#[test]
fn draw_image_blends_the_cropped_image() {
    let mut layer = Layer::new(0, 100, 70, 0xffffffff);
    // a 2x2 image whose corner lies outside the layer
    let image = vec![0xff0000ff, 0xff00ff00, 0xffff0000, 0x80000000];
    let aoe = draw_image(&mut layer, 1, &image, &Rectangle::new(-1, -1, 2, 2), 255, Blendmode::Normal);
    assert_eq!(aoe, Some(Rectangle::new(0, 0, 1, 1)));
    // only the image's last pixel lands on the layer: half transparent black over white
    assert_eq!(layer.pixel_at(0, 0), [127, 127, 127, 255]);
    assert_eq!(layer.pixel_at(1, 0), [255, 255, 255, 255]);
    // replacing with half opacity across a tile edge
    let image = vec![0xff0000ff; 4];
    let aoe = draw_image(&mut layer, 1, &image, &Rectangle::new(63, 63, 2, 2), 255, Blendmode::Replace);
    assert_eq!(aoe, Some(Rectangle::new(63, 63, 2, 2)));
    for (x, y) in [(63, 63), (64, 63), (63, 64), (64, 64)] {
        assert_eq!(layer.pixel_at(x, y), [255, 0, 0, 255]);
    }
    assert_eq!(layer.pixel_at(65, 64), [255, 255, 255, 255]);
    // outside the layer: nothing
    assert_eq!(draw_image(&mut layer, 1, &image, &Rectangle::new(100, 0, 2, 2), 255, Blendmode::Normal), None);
}

#[test]
fn draw_image_erases_and_keeps_blank_tiles() {
    let mut layer = Layer::new(0, 64, 64, 0);
    let image = vec![0xff000000; 64 * 64];
    let aoe = draw_image(&mut layer, 1, &image, &Rectangle::new(0, 0, 64, 64), 255, Blendmode::Erase);
    assert_eq!(aoe, Some(Rectangle::new(0, 0, 64, 64)));
    assert!(matches!(layer.tiles[0], Tile::Blank));
    let mut solid = Layer::new(0, 64, 64, 0xffffffff);
    draw_image(&mut solid, 1, &image[..4], &Rectangle::new(10, 10, 2, 2), 255, Blendmode::Erase);
    assert_eq!(solid.pixel_at(10, 10), [0, 0, 0, 0]);
    assert_eq!(solid.pixel_at(12, 10), [255, 255, 255, 255]);
}

use dpcore::canvas::brushes::{drawdabs_classic, PlacedMask};
use dpcore::protocol::message::{ClassicDab, DrawDabsClassicMessage};

fn classic_stroke(color: u32) -> DrawDabsClassicMessage {
    DrawDabsClassicMessage {
        layer: 1,
        x: 0,
        y: 0,
        color,
        mode: 1,
        dabs: vec![ClassicDab { x: 0, y: 0, size: 256, opacity: 255, hardness: 255 }],
    }
}

#[test]
fn classic_stroke_draws_its_masks() {
    let mask = BrushMask { diameter: 2, mask: vec![255, 0, 0, 128] };
    let masks = vec![PlacedMask { x: 1, y: 1, mask }];
    let mut l = Layer::new(1, 10, 10, 0);
    drawdabs_classic(&mut l, 3, &classic_stroke(0x00ff0000), &masks);
    assert_eq!(l.pixel_at(1, 1), [0, 0, 255, 255]);
    assert_eq!(l.pixel_at(2, 1), [0, 0, 0, 0]);
    assert_eq!(l.pixel_at(2, 2), [0, 0, 128, 128]);
    // with some alpha the stroke goes to the user's sublayer
    let mut l = Layer::new(1, 10, 10, 0);
    drawdabs_classic(&mut l, 3, &classic_stroke(0x80ff0000), &masks);
    assert_eq!(l.pixel_at(1, 1), [0, 0, 0, 0]);
    assert!(l.has_sublayer(3));
    let sub = l.take_sublayer(3).unwrap();
    assert_eq!(sub.opacity, 0x80);
    assert_eq!(sub.pixel_at(1, 1), [0, 0, 255, 255]);
}

#[test]
fn render_draws_classic_strokes_with_their_masks() {
    let ms = vec![
        msg(1, Body::CanvasResize(CanvasResizeMessage { top: 0, right: 3, bottom: 3, left: 0 })),
        msg(1, Body::LayerCreate(LayerCreateMessage { id: 1, source: 0, fill: 0, flags: 0, name: String::new() })),
        msg(1, Body::DrawDabsClassic(classic_stroke(0x00ff0000))),
    ];
    let masks = vec![vec![], vec![], vec![PlacedMask { x: 1, y: 1, mask: BrushMask { diameter: 1, mask: vec![255] } }]];
    let (img, w, h) = render_messages(&ms, &masks).unwrap();
    assert_eq!((w, h), (3, 3));
    assert_eq!(img[4], 0xffff0000);
    assert_eq!(img[0], 0);
    // without masks the stroke draws nothing
    let (img, _, _) = render_messages(&ms, &[]).unwrap();
    assert_eq!(img[4], 0);
}

#[test]
fn layer_from_image_holds_the_pixels() {
    let image: Vec<u32> = (0..70 * 3).map(|i| 0xff000000 | i as u32).collect();
    let l = Layer::from_image(&image, 70, 3);
    assert_eq!(l.size(), (70, 3));
    assert_eq!(l.id, 0);
    assert_eq!(l.pixel_at(0, 0), [0, 0, 0, 255]);
    assert_eq!(l.pixel_at(69, 2), [209, 0, 0, 255]);
    assert_eq!(l.pixel_at(65, 1), [135, 0, 0, 255]);
}

#[test]
fn test_from_small_image() {
    // the pixels [0, 0, 0, 1], [0, 0, 0, 2], [0, 0, 0, 3], [0, 0, 1, 1],
    // [0, 0, 1, 2], [0, 0, 1, 3] (blue, green, red, alpha) as pixel values
    let image = [0x01000000, 0x02000000, 0x03000000, 0x01010000, 0x02010000, 0x03010000];
    let layer = Layer::from_image(&image, 3, 2);
    assert_eq!(layer.pixel_at(0, 0), [0, 0, 0, 1]);
    assert_eq!(layer.pixel_at(1, 0), [0, 0, 0, 2]);
    assert_eq!(layer.pixel_at(2, 0), [0, 0, 0, 3]);
    assert_eq!(layer.pixel_at(3, 0), [0, 0, 0, 0]);
    assert_eq!(layer.pixel_at(0, 1), [0, 0, 1, 1]);
    assert_eq!(layer.pixel_at(1, 1), [0, 0, 1, 2]);
    assert_eq!(layer.pixel_at(2, 1), [0, 0, 1, 3]);
    assert_eq!(layer.pixel_at(3, 1), [0, 0, 0, 0]);
    assert_eq!(layer.pixel_at(0, 2), [0, 0, 0, 0]);
}
