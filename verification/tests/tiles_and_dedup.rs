use wfc::bitmap::{Bitmap, Rgb, bitmap_eq};
use wfc::image_impls::BorderStyle;
use wfc::tile::{Tile, build_tiles, Direction};

fn rgb(r: u8, g: u8, b: u8) -> Rgb {
    Rgb { r, g, b }
}

fn checkerboard() -> Bitmap {
    let red = rgb(255, 0, 0);
    let green = rgb(0, 255, 0);
    let mut bm = Bitmap::new(2, 2, red);
    bm.set_pixel(1, 0, green);
    bm.set_pixel(0, 1, green);
    bm
}

fn canonical_indices(tiles: &[Tile]) -> Vec<usize> {
    (0..tiles.len()).filter(|&i| tiles[i].frequency > 0).collect()
}

#[test]
fn checkerboard_yields_two_canonical_tiles() {
    let bm = checkerboard();
    let tiles = build_tiles(&bm, 3, BorderStyle::Looping);
    assert_eq!(tiles.len(), 4);
    let canon = canonical_indices(&tiles);
    assert_eq!(canon.len(), 2);
    // frequencies sum to the number of source pixels
    let total: u32 = tiles.iter().map(|t| t.frequency).sum();
    assert_eq!(total, 4);
    // each canonical class occurs twice
    for &c in &canon {
        assert_eq!(tiles[c].frequency, 2);
    }
}

#[test]
fn single_pixel_source_yields_one_tile() {
    let bm = Bitmap::new(1, 1, rgb(255, 0, 0));
    let tiles = build_tiles(&bm, 1, BorderStyle::Looping);
    assert_eq!(tiles.len(), 1);
    assert_eq!(tiles[0].frequency, 1);
    // the lone tile may sit beside itself in every direction
    for d in [Direction::Up, Direction::Down, Direction::Left, Direction::Right] {
        assert_eq!(tiles[0].neighbors.get(d), &vec![0usize]);
    }
}

#[test]
fn adjacency_lists_are_symmetric() {
    let bm = checkerboard();
    let tiles = build_tiles(&bm, 3, BorderStyle::Looping);
    for a in 0..tiles.len() {
        for d in [Direction::Up, Direction::Down, Direction::Left, Direction::Right] {
            for &b in tiles[a].neighbors.get(d) {
                let back = tiles[b].neighbors.get(d.opposing());
                assert!(back.contains(&a), "{}->{} in {:?} but not back", a, b, d);
            }
        }
    }
}

#[test]
fn checkerboard_tiles_alternate() {
    // an R-centered tile may only sit beside a G-centered one
    let bm = checkerboard();
    let tiles = build_tiles(&bm, 3, BorderStyle::Looping);
    let canon = canonical_indices(&tiles);
    for &a in &canon {
        let ca = {
            let img = &tiles[a].image;
            img.get_pixel(1, 1)
        };
        for d in [Direction::Up, Direction::Down, Direction::Left, Direction::Right] {
            for &b in tiles[a].neighbors.get(d) {
                let cb = tiles[b].image.get_pixel(1, 1);
                assert_ne!(ca, cb);
            }
        }
    }
}

#[test]
fn dedup_is_idempotent_under_tiling() {
    // extracting from the 2x2 board and from the board tiled 2x2 times
    // yields the same canonical tiles, with frequencies scaled by area
    let base = checkerboard();
    let mut tiled = Bitmap::new(4, 4, rgb(0, 0, 0));
    for y in 0..4u32 {
        for x in 0..4u32 {
            tiled.set_pixel(x, y, base.get_pixel(x % 2, y % 2));
        }
    }
    let ta = build_tiles(&base, 3, BorderStyle::Looping);
    let tb = build_tiles(&tiled, 3, BorderStyle::Looping);
    let ca = canonical_indices(&ta);
    let cb = canonical_indices(&tb);
    assert_eq!(ca.len(), cb.len());
    for &a in &ca {
        let mut matched = false;
        for &b in &cb {
            if bitmap_eq(&ta[a].image, &tb[b].image) {
                assert_eq!(tb[b].frequency, 4 * ta[a].frequency);
                matched = true;
            }
        }
        assert!(matched, "canonical tile of the base board missing from the tiled board");
    }
}

#[test]
fn half_views_have_half_dimensions() {
    let bm = checkerboard();
    let tiles = build_tiles(&bm, 3, BorderStyle::Looping);
    let t = &tiles[0];
    let up = t.up_view();
    assert_eq!((up.width, up.height), (3, 2));
    let down = t.down_view();
    assert_eq!((down.width, down.height), (3, 2));
    assert_eq!(down.yoffset, 1);
    let left = t.left_view();
    assert_eq!((left.width, left.height), (2, 3));
    let right = t.right_view();
    assert_eq!((right.width, right.height), (2, 3));
    assert_eq!(right.xoffset, 1);
    assert_eq!(t.view_in_direction(Direction::Up), up);
}
