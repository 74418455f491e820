use wfc::bitmap::{Bitmap, Rgb, bitmap_eq};
use wfc::image_impls::BorderStyle;

fn rgb(r: u8, g: u8, b: u8) -> Rgb {
    Rgb { r, g, b }
}

fn two_by_two() -> Bitmap {
    // [[R, G], [G, R]]
    let red = rgb(255, 0, 0);
    let green = rgb(0, 255, 0);
    let mut bm = Bitmap::new(2, 2, red);
    bm.set_pixel(1, 0, green);
    bm.set_pixel(0, 1, green);
    bm
}

#[test]
fn looping_border_wraps_negative_offsets() {
    let style = BorderStyle::Looping;
    assert_eq!(style.check_borders(0, -1, 4), 3);
    assert_eq!(style.check_borders(0, -4, 4), 0);
    assert_eq!(style.check_borders(0, -5, 4), 3);
    assert_eq!(style.check_borders(3, 2, 4), 1);
    assert_eq!(style.check_borders(2, 0, 4), 2);
}

#[test]
fn clamped_border_pins_to_edges() {
    let style = BorderStyle::Clamped;
    assert_eq!(style.check_borders(0, -5, 4), 0);
    assert_eq!(style.check_borders(3, 9, 4), 3);
    assert_eq!(style.check_borders(1, 1, 4), 2);
    assert_eq!(style.check_borders(0, 0, 1), 0);
}

#[test]
fn looping_view_reads_wrapped_pixels() {
    let bm = two_by_two();
    // a 1x1 looping view with offsets (3, 2) reads pixel (1, 0): green
    let v = bm.looping_view(3, 2, 1, 1, BorderStyle::Looping);
    assert_eq!(v.get_pixel(&bm, 0, 0), rgb(0, 255, 0));
    // offsets (2, 2) wrap to (0, 0): red
    let v2 = bm.looping_view(2, 2, 1, 1, BorderStyle::Looping);
    assert_eq!(v2.get_pixel(&bm, 0, 0), rgb(255, 0, 0));
}

#[test]
fn clamped_view_reads_edge_pixels() {
    let bm = two_by_two();
    let v = bm.looping_view(-7, -7, 1, 1, BorderStyle::Clamped);
    assert_eq!(v.get_pixel(&bm, 0, 0), rgb(255, 0, 0));
    let v2 = bm.looping_view(9, 0, 1, 1, BorderStyle::Clamped);
    assert_eq!(v2.get_pixel(&bm, 0, 0), rgb(0, 255, 0));
}

#[test]
fn view_equality_is_pixelwise() {
    let bm = two_by_two();
    // the two diagonal 1x2 views hold the same pixels
    let a = bm.looping_view(0, 0, 1, 2, BorderStyle::Looping);
    let b = bm.looping_view(1, 1, 1, 2, BorderStyle::Looping);
    assert!(a.eq_view(&bm, &b, &bm));
    // a view shifted one column differs
    let c = bm.looping_view(1, 0, 1, 2, BorderStyle::Looping);
    assert!(!a.eq_view(&bm, &c, &bm));
    // equality is symmetric on these values
    assert!(b.eq_view(&bm, &a, &bm));
}

#[test]
fn to_image_materializes_the_view() {
    let bm = two_by_two();
    let v = bm.looping_view(-1, -1, 4, 4, BorderStyle::Looping);
    let out = v.to_image(&bm);
    assert_eq!(out.width(), 4);
    assert_eq!(out.height(), 4);
    for y in 0..4u32 {
        for x in 0..4u32 {
            assert_eq!(out.get_pixel(x, y), v.get_pixel(&bm, x, y));
        }
    }
}

#[test]
fn tiles_enumerates_one_patch_per_pixel() {
    let bm = two_by_two();
    let mut t = bm.tiles(3, BorderStyle::Looping);
    let mut seen = 0;
    while let Some(v) = t.next(&bm) {
        let (w, h) = v.dimensions();
        assert_eq!(w, 3);
        assert_eq!(h, 3);
        seen += 1;
    }
    assert_eq!(seen, 4);
    // the first patch is centered on pixel (0, 0)
    let mut t2 = bm.tiles(3, BorderStyle::Looping);
    let first = t2.next(&bm).unwrap();
    assert_eq!(first.xoffset, -1);
    assert_eq!(first.yoffset, -1);
}

#[test]
fn bitmap_equality_is_pixelwise() {
    let a = two_by_two();
    let b = two_by_two();
    assert!(bitmap_eq(&a, &b));
    let mut c = two_by_two();
    c.set_pixel(0, 0, rgb(1, 2, 3));
    assert!(!bitmap_eq(&a, &c));
}
