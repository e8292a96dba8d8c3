use dpcore::paint::blendmode::Blendmode;
use dpcore::paint::brushmask::BrushMask;
use dpcore::paint::rect::Rectangle;
use dpcore::paint::tile::{Tile, TileData};
use std::rc::Rc;

#[test]
fn blendmode_numbers() {
    assert_eq!(Blendmode::Erase.to_u8(), 0);
    assert_eq!(Blendmode::Normal.to_u8(), 1);
    assert_eq!(Blendmode::Replace.to_u8(), 255);
    for n in 0..=255u8 {
        if let Some(m) = Blendmode::try_from_u8(n) {
            assert_eq!(m.to_u8(), n);
        }
    }
    assert_eq!(Blendmode::try_from_u8(200), None);
}

#[test]
fn blendmode_opacity() {
    assert!(Blendmode::Erase.can_decrease_opacity());
    assert!(!Blendmode::Erase.can_increase_opacity());
    assert!(Blendmode::Normal.can_increase_opacity());
    assert!(!Blendmode::Normal.can_decrease_opacity());
    assert!(Blendmode::Replace.can_increase_opacity());
    assert!(Blendmode::Replace.can_decrease_opacity());
}

#[test]
fn tile_counts() {
    assert_eq!(Tile::div_up(0), 0);
    assert_eq!(Tile::div_up(1), 1);
    assert_eq!(Tile::div_up(64), 1);
    assert_eq!(Tile::div_up(65), 2);
}

#[test]
fn tile_pixels() {
    let mut data = TileData::new(0xff_112233, 7);
    data.pixels[64 + 2] = 0x80_000040;
    let t = Tile::Bitmap(Rc::new(data));
    assert_eq!(t.pixel_at(0, 0), [0x33, 0x22, 0x11, 0xff]);
    assert_eq!(t.pixel_at(2, 1), [0x40, 0x00, 0x00, 0x80]);
    assert_eq!(t.last_touched_by(), 7);
    assert!(!t.is_blank());
    assert_eq!(t.refcount(), 1);
    let rows = t.rect_iter(&Rectangle::new(1, 1, 2, 2));
    assert_eq!(rows, vec![vec![0xff_112233, 0x80_000040], vec![0xff_112233, 0xff_112233]]);
    let copy = t.clone_data();
    assert_eq!(copy.pixels[66], 0x80_000040);

    let blank = Tile::Blank;
    assert!(blank.is_blank());
    assert_eq!(blank.pixel_at(5, 5), [0, 0, 0, 0]);
    assert_eq!(blank.last_touched_by(), 0);
    assert_eq!(blank.refcount(), 0);
    assert_eq!(blank.to_ascii_art(), "[BLANK TILE]");
    assert!(Tile::Bitmap(Rc::new(TileData::new(0x00_ffffff, 1))).is_blank());
}

#[test]
fn tile_refcount_counts_handles() {
    let data = Rc::new(TileData::new(0, 0));
    let t = Tile::Bitmap(data.clone());
    assert_eq!(t.refcount(), 2);
}

#[test]
fn tile_ascii_art() {
    let mut data = TileData::new(0, 0);
    data.pixels[1] = 0x00_000001;
    let art = Tile::Bitmap(Rc::new(data)).to_ascii_art();
    let first = art.lines().next().unwrap();
    assert_eq!(first.len(), 64);
    assert!(first.starts_with(".X.."));
    assert_eq!(art.lines().count(), 64);
}

#[test]
fn brush_mask_ascii_art() {
    let mask = BrushMask {
        diameter: 2,
        mask: vec![0, 255, 10, 0],
    };
    assert_eq!(mask.to_ascii_art(), ".X\nX.\n");
}

#[test]
fn rectangle_edges() {
    let r = Rectangle::new(2, 3, 4, 5);
    assert_eq!(r.right(), 5);
    assert_eq!(r.bottom(), 7);
}

#[test]
fn test_cow() {
    let mut tile = Tile::new_solid(0, 0);
    let tile2 = tile.clone();
    let tile3 = tile2.clone();

    assert_eq!(tile.refcount(), 3);
    assert_eq!(tile2.refcount(), 3);
    assert_eq!(tile3.refcount(), 3);

    tile.fill(0xffff0000, 1);

    assert_eq!(tile.refcount(), 1);
    assert_eq!(tile2.refcount(), 2);
    assert_eq!(tile3.refcount(), 2);
}

#[test]
fn test_cow_vec() {
    let mut vec1 = vec![Tile::new_solid(0, 0); 3];
    let vec2 = vec1.clone();

    assert_eq!(vec1[0].refcount(), 6);
    vec1[0] = Tile::Blank;
    assert_eq!(vec2[0].refcount(), 5);
}

#[test]
fn test_solid() {
    let mut tile = Tile::Blank;
    assert_eq!(tile.solid_color(), Some(0));
    assert!(tile.is_blank());

    let red = 0xffff0000;
    tile.fill(red, 1);
    assert_eq!(tile.solid_color(), Some(red));
    assert!(!tile.is_blank());

    let white = vec![vec![0xffffffffu32; 3]; 3];
    tile.rect_iter_mut(1, &Rectangle::new(0, 0, 3, 3), &white);
    assert_eq!(tile.solid_color(), None);
    assert!(!tile.is_blank());
}

#[test]
fn tile_constructors() {
    let t = Tile::new(0x00_123456, 4);
    assert!(matches!(t, Tile::Blank));
    let t = Tile::new(0x80_404040, 4);
    assert_eq!(t.solid_color(), Some(0x80_404040));
    assert_eq!(t.last_touched_by(), 4);
    let t = Tile::new_solid(0, 9);
    assert!(matches!(t, Tile::Bitmap(_)));
    assert_eq!(t.last_touched_by(), 9);
    assert!(t.is_blank());
}

#[test]
fn tile_fill_transparent_makes_blank() {
    let mut t = Tile::new_solid(0xff_ffffff, 2);
    t.fill(0x00_ffffff, 3);
    assert!(matches!(t, Tile::Blank));
    assert_eq!(t.last_touched_by(), 0);
}

#[test]
fn tile_rect_write_on_blank_and_shared() {
    let mut blank = Tile::Blank;
    blank.rect_iter_mut(5, &Rectangle::new(62, 63, 2, 1), &vec![vec![1, 2]]);
    assert_eq!(blank.last_touched_by(), 5);
    assert_eq!(blank.rect_iter(&Rectangle::new(61, 63, 3, 1)), vec![vec![0, 1, 2]]);
    assert_eq!(blank.pixel_at(0, 0), [0, 0, 0, 0]);

    let mut a = Tile::new_solid(0xff_000000, 7);
    let b = a.clone();
    a.rect_iter_mut(1, &Rectangle::new(0, 0, 1, 2), &vec![vec![9], vec![8]]);
    assert_eq!(a.last_touched_by(), 7);
    assert_eq!(a.rect_iter(&Rectangle::new(0, 0, 2, 2)), vec![vec![9, 0xff_000000], vec![8, 0xff_000000]]);
    assert_eq!(b.solid_color(), Some(0xff_000000));
    assert_eq!(a.refcount(), 1);
    assert_eq!(b.refcount(), 1);
}

#[test]
fn test_round_pixel() {
    let mask = BrushMask::new_round_pixel(4, 1);
    let expected: [u8; 4 * 4] = [0, 1, 1, 0, 1, 1, 1, 1, 1, 1, 1, 1, 0, 1, 1, 0];
    assert_eq!(mask.mask, expected);
}

#[test]
fn test_square_pixel() {
    let mask = BrushMask::new_square_pixel(2, 1);
    let expected: [u8; 4] = [1, 1, 1, 1];
    assert_eq!(mask.mask, expected);
}

#[test]
fn round_pixel_shapes() {
    assert_eq!(BrushMask::new_round_pixel(1, 200).mask, vec![200]);
    assert_eq!(BrushMask::new_round_pixel(0, 200).mask, Vec::<u8>::new());
    let m = BrushMask::new_round_pixel(5, 9);
    assert_eq!(m.to_ascii_art(), ".XXX.\nXXXXX\nXXXXX\nXXXXX\n.XXX.\n");
    assert_eq!(BrushMask::new_round_pixel(3, 255).mask, vec![255; 9]);
}

/// A color given as fractions, as a premultiplied pixel value
fn color_pixel(r: f32, g: f32, b: f32, a: f32) -> u32 {
    let af = a * 255.0;
    ((af as u32) << 24) | (((r * af) as u32) << 16) | (((g * af) as u32) << 8) | ((b * af) as u32)
}

#[test]
fn test_merge() {
    let mut btm = Tile::new_solid(color_pixel(0.0, 0.0, 0.0, 1.0), 0);
    let top = Tile::new_solid(color_pixel(1.0, 1.0, 1.0, 1.0), 0);
    btm.merge(&top, (0.5f32 * 255.0) as u8, Blendmode::Normal);

    assert_eq!(btm.solid_color(), Some(color_pixel(0.5, 0.5, 0.5, 1.0)));
}

#[test]
fn test_merge_blank() {
    let mut btm = Tile::Blank;
    let top = Tile::new_solid(color_pixel(1.0, 1.0, 1.0, 1.0), 0);
    btm.merge(&top, (0.5f32 * 255.0) as u8, Blendmode::Normal);

    assert_eq!(btm.solid_color(), Some(color_pixel(1.0, 1.0, 1.0, 0.5)));
}
