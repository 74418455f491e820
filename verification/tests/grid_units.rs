use rand::SeedableRng;
use rand::rngs::StdRng;
use wfc::bitmap::{Bitmap, Rgb};
use wfc::grid::{Grid, GridError};
use wfc::grid::cell::Cell;
use wfc::image_impls::BorderStyle;
use wfc::tile::{Direction, build_tiles};

fn rgb(r: u8, g: u8, b: u8) -> Rgb {
    Rgb { r, g, b }
}

#[test]
fn grid_construction_rejects_degenerate_requests() {
    assert!(matches!(
        Grid::new(0, 5, vec![0], 10),
        Err(GridError::ZeroDimension)
    ));
    assert!(matches!(
        Grid::new(5, 0, vec![0], 10),
        Err(GridError::ZeroDimension)
    ));
    assert!(matches!(
        Grid::new(3, 3, Vec::new(), 10),
        Err(GridError::EmptyOptions)
    ));
    let g = Grid::new(3, 2, vec![0, 1], 10).unwrap();
    assert_eq!(g.width(), 3);
    assert_eq!(g.height(), 2);
    assert_eq!(g.attempts(), 0);
}

#[test]
fn grid_indexing_matches_row_major_layout() {
    let g = Grid::new(3, 2, vec![0, 1], 10).unwrap();
    assert!(g.get((2, 1)).is_some());
    assert!(g.get((3, 0)).is_none());
    assert!(g.get((0, 2)).is_none());
    assert!(g.get_index(5).is_some());
    assert!(g.get_index(6).is_none());
}

#[test]
fn neighbor_indices_respect_the_borders() {
    let g = Grid::new(3, 3, vec![0], 10).unwrap();
    // the middle cell, index 4, has all four neighbors
    assert_eq!(g.index_in_direction(4, Direction::Up), Some(1));
    assert_eq!(g.index_in_direction(4, Direction::Down), Some(7));
    assert_eq!(g.index_in_direction(4, Direction::Left), Some(3));
    assert_eq!(g.index_in_direction(4, Direction::Right), Some(5));
    // left column cells have no left neighbor, right column no right
    assert_eq!(g.index_in_direction(3, Direction::Left), None);
    assert_eq!(g.index_in_direction(5, Direction::Right), None);
    // the top row has no upper neighbor, the bottom row no lower one
    assert_eq!(g.index_in_direction(2, Direction::Up), None);
    assert_eq!(g.index_in_direction(7, Direction::Down), None);
    assert_eq!(g.index_in_direction(8, Direction::Down), None);
}

#[test]
fn regenerate_resets_cells_and_counts_attempts() {
    let mut g = Grid::new(2, 2, vec![0, 1, 2], 10).unwrap();
    g.regenerate(true);
    assert_eq!(g.attempts(), 1);
    g.regenerate(false);
    assert_eq!(g.attempts(), 1);
    for i in 0..4 {
        assert_eq!(g.get_index(i).unwrap().options, vec![0, 1, 2]);
    }
}

#[test]
fn mutable_access_reaches_the_right_cell() {
    let mut g = Grid::new(2, 2, vec![0, 1], 10).unwrap();
    {
        let c = g.get_mut((1, 0)).unwrap();
        c.options = vec![1];
    }
    assert_eq!(g.get_index(1).unwrap().options, vec![1]);
    assert_eq!(g.get_index(0).unwrap().options, vec![0, 1]);
    assert!(g.get_index_mut(9).is_none());
    assert!(g.get_mut((2, 0)).is_none());
}

#[test]
fn update_options_intersects_or_fails() {
    let mut c = Cell::new(vec![1, 2, 3]);
    let r = c.update_options(&vec![2, 4]);
    assert!(r.is_ok());
    assert_eq!(c.options, vec![2]);
    assert!(c.is_collapsed());
    let r2 = c.update_options(&vec![5]);
    assert!(r2.is_err());
    // a failed update leaves the cell untouched
    assert_eq!(c.options, vec![2]);
}

#[test]
fn entropy_keys_tie_exactly_on_equal_option_sets() {
    let mut bm = Bitmap::new(2, 2, rgb(255, 0, 0));
    bm.set_pixel(1, 0, rgb(0, 255, 0));
    bm.set_pixel(0, 1, rgb(0, 255, 0));
    let tiles = build_tiles(&bm, 3, BorderStyle::Looping);
    let canon: Vec<usize> = (0..tiles.len()).filter(|&i| tiles[i].frequency > 0).collect();
    let a = Cell::new(canon.clone());
    let b = Cell::new(canon.clone());
    let ka = a.calculate_entropy(&tiles);
    let kb = b.calculate_entropy(&tiles);
    assert!(wfc::entropy::key_eq(&ka, &kb));
    // a collapsed cell has zero entropy, strictly below an open cell
    let single = Cell::new(vec![canon[0]]);
    let ks = single.calculate_entropy(&tiles);
    assert!(wfc::entropy::key_lt(&ks, &ka));
    assert!(!wfc::entropy::key_lt(&ka, &ks));
}

#[test]
fn collapse_reports_completion_exactly_when_all_cells_are_single() {
    let mut bm = Bitmap::new(2, 2, rgb(255, 0, 0));
    bm.set_pixel(1, 0, rgb(0, 255, 0));
    bm.set_pixel(0, 1, rgb(0, 255, 0));
    let tiles = build_tiles(&bm, 3, BorderStyle::Looping);
    let canon: Vec<usize> = (0..tiles.len()).filter(|&i| tiles[i].frequency > 0).collect();
    let mut g = Grid::new(3, 3, canon, 10).unwrap();
    let mut rng = StdRng::seed_from_u64(11);
    let mut steps = 0;
    loop {
        match g.collapse(&tiles, &mut rng) {
            Ok(true) => {
                steps += 1;
                assert!(steps < 1000);
            }
            Ok(false) => break,
            Err(_) => g.regenerate(true),
        }
    }
    for i in 0..9 {
        assert_eq!(g.get_index(i).unwrap().options.len(), 1);
    }
    // every cell kept at least one option throughout; a further call
    // reports completion again without touching anything
    assert!(matches!(g.collapse(&tiles, &mut rng), Ok(false)));
}

#[test]
fn a_single_open_cell_never_exhausts() {
    // with at most one uncollapsed cell no propagation runs, so no
    // random draw can fail the step, whatever the seed
    let mut bm = Bitmap::new(2, 2, rgb(255, 0, 0));
    bm.set_pixel(1, 0, rgb(0, 255, 0));
    bm.set_pixel(0, 1, rgb(0, 255, 0));
    let tiles = build_tiles(&bm, 3, BorderStyle::Looping);
    let canon: Vec<usize> = (0..tiles.len()).filter(|&i| tiles[i].frequency > 0).collect();
    for seed in 0..20 {
        let mut g = Grid::new(1, 1, canon.clone(), 10).unwrap();
        let mut rng = StdRng::seed_from_u64(seed);
        assert!(matches!(g.collapse(&tiles, &mut rng), Ok(false)));
        assert_eq!(g.get_index(0).unwrap().options.len(), 1);
    }
}

#[test]
fn render_paints_collapsed_cells_with_center_pixels() {
    let bm = Bitmap::new(1, 1, rgb(9, 8, 7));
    let tiles = build_tiles(&bm, 1, BorderStyle::Looping);
    let g = Grid::new(2, 2, vec![0], 0).unwrap();
    let out = wfc::render::render(&g, &tiles);
    for y in 0..2u32 {
        for x in 0..2u32 {
            assert_eq!(out.get_pixel(x, y), rgb(9, 8, 7));
        }
    }
}

#[test]
fn render_blends_open_cells_by_frequency() {
    // two tiles with centers (255, 0, 0) and (0, 255, 0), frequencies
    // 2 and 2: the blend is the integer mean (127, 127, 0)
    let mut bm = Bitmap::new(2, 2, rgb(255, 0, 0));
    bm.set_pixel(1, 0, rgb(0, 255, 0));
    bm.set_pixel(0, 1, rgb(0, 255, 0));
    let tiles = build_tiles(&bm, 3, BorderStyle::Looping);
    let canon: Vec<usize> = (0..tiles.len()).filter(|&i| tiles[i].frequency > 0).collect();
    let g = Grid::new(1, 1, canon, 0).unwrap();
    let out = wfc::render::render(&g, &tiles);
    assert_eq!(out.get_pixel(0, 0), rgb(127, 127, 0));
}

#[test]
fn cells_walks_the_grid_in_row_major_order() {
    let g = Grid::new(3, 2, vec![0], 10).unwrap();
    let mut walk = g.cells();
    let mut expected = Vec::new();
    for y in 0..2usize {
        for x in 0..3usize {
            expected.push((x, y));
        }
    }
    let mut seen = Vec::new();
    while let Some((x, y, cell)) = walk.next(&g) {
        assert_eq!(cell.options, vec![0]);
        seen.push((x, y));
    }
    assert_eq!(seen, expected);
    assert!(walk.next(&g).is_none());
}

#[test]
fn args_height_defaults_to_width() {
    let a = wfc::args::Args {
        input: String::from("in.png"),
        output: None,
        tile_size: 3,
        output_height: None,
        output_width: 12,
        display: false,
        max_depth: 10,
        border_style: BorderStyle::Looping,
        repeating: false,
    };
    assert_eq!(a.effective_height(), 12);
    let b = wfc::args::Args { output_height: Some(5), ..a };
    assert_eq!(b.effective_height(), 5);
}
