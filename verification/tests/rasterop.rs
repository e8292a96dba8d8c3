use dpcore::paint::blendmode::Blendmode;
use dpcore::paint::rasterop::{
    alpha_mask_blend, alpha_mask_erase, alpha_mask_under, alpha_pixel_blend, alpha_pixel_erase,
    alpha_pixel_under, mask_blend, pixel_blend, pixel_replace,
};

#[test]
fn test_alpha_pixel_blend() {
    let mut base = [0xff_ff0000];
    let over = [0x80_008000];

    alpha_pixel_blend(&mut base, &over, 0xff);
    assert_eq!(base, [0xff7f8000]);

    let mut base = [0xff_ff0000];
    alpha_pixel_blend(&mut base, &over, 0x80);
    assert_eq!(base, [0xffbf4000]);
}

#[test]
fn test_alpha_mask_blend() {
    let mut base = [0xff_ff0000, 0xff_ff0000, 0xff_ff0000];
    let mask = [0xff, 0x80, 0x40];

    alpha_mask_blend(&mut base, 0x0000ff00, &mask);
    assert_eq!(base, [0xff_00ff00, 0xff_7f8000, 0xff_bf4000]);
}

#[test]
fn test_alpha_pixel_erase() {
    let mut base = [0xff_ffffff, 0xff_ffffff, 0xff_ffffff];
    let over = [0xff_123456, 0x80_123456, 0x00_123456];

    alpha_pixel_erase(&mut base, &over, 0xff);
    assert_eq!(base, [0x00_000000, 0x7f_7f7f7f, 0xff_ffffff]);
}

#[test]
fn test_alpha_mask_erase() {
    let mut base = [0xff_ffffff, 0xff_ffffff, 0xff_ffffff];
    let mask = [0xff, 0x80, 0x00];

    alpha_mask_erase(&mut base, &mask);
    assert_eq!(base, [0x00_000000, 0x7f_7f7f7f, 0xff_ffffff]);
}

#[test]
fn blend_with_zero_opacity_keeps_base() {
    let mut base = [0xff_ff0000, 0x80_402010];
    let over = [0xff_00ff00, 0xff_0000ff];
    alpha_pixel_blend(&mut base, &over, 0);
    assert_eq!(base, [0xff_ff0000, 0x80_402010]);
}

#[test]
fn blend_of_transparent_pixel_keeps_base() {
    let mut base = [0xff_123456];
    alpha_pixel_blend(&mut base, &[0], 0xff);
    assert_eq!(base, [0xff_123456]);
}

#[test]
fn mask_of_zero_keeps_base() {
    let mut base = [0xff_123456, 0x00_000000];
    alpha_mask_blend(&mut base, 0x00ff_ffff, &[0, 0]);
    assert_eq!(base, [0xff_123456, 0x00_000000]);
    alpha_mask_erase(&mut base, &[0, 0]);
    assert_eq!(base, [0xff_123456, 0x00_000000]);
}

#[test]
fn under_fills_transparent_pixels() {
    let mut base = [0x00_000000, 0xff_ff0000];
    let over = [0xff_00ff00, 0xff_00ff00];
    alpha_pixel_under(&mut base, &over, 0xff);
    assert_eq!(base, [0xff_00ff00, 0xff_ff0000]);

    let mut base = [0x00_000000, 0xff_ff0000];
    alpha_mask_under(&mut base, 0x0000_00ff, &[0xff, 0xff]);
    assert_eq!(base, [0xff_0000ff, 0xff_ff0000]);
}

#[test]
fn replace_copies_pixels() {
    let mut base = [0xff_ff0000, 0xff_ff0000];
    let over = [0x80_008000, 0x00_000000];
    pixel_replace(&mut base, &over, 0xff);
    assert_eq!(base, [0x80_008000, 0x00_000000]);
}

#[test]
fn dispatch_by_blend_mode() {
    let over = [0x80_008000];

    let mut base = [0xff_ff0000];
    assert!(pixel_blend(&mut base, &over, 0xff, Blendmode::Normal));
    assert_eq!(base, [0xff7f8000]);

    let mut base = [0xff_ffffff];
    assert!(pixel_blend(&mut base, &[0xff_123456], 0xff, Blendmode::Erase));
    assert_eq!(base, [0]);

    let mut base = [0xff_ff0000];
    assert!(pixel_blend(&mut base, &over, 0xff, Blendmode::Replace));
    assert_eq!(base, [0x80_008000]);

    let mut base = [0xff_ff0000, 0xff_ff0000, 0xff_ff0000];
    assert!(mask_blend(&mut base, 0x0000ff00, &[0xff, 0x80, 0x40], Blendmode::Normal));
    assert_eq!(base, [0xff_00ff00, 0xff_7f8000, 0xff_bf4000]);

    let mut base = [0xff_ff0000];
    assert!(!pixel_blend(&mut base, &over, 0xff, Blendmode::Multiply));
    assert_eq!(base, [0xff_ff0000]);
}
