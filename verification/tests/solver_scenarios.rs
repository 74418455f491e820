use rand::SeedableRng;
use rand::rngs::StdRng;
use wfc::bitmap::{Bitmap, Rgb};
use wfc::image_impls::BorderStyle;
use wfc::render::render;
use wfc::session::{Session, SessionError, TickOutcome};

fn rgb(r: u8, g: u8, b: u8) -> Rgb {
    Rgb { r, g, b }
}

fn red() -> Rgb {
    rgb(255, 0, 0)
}

fn green() -> Rgb {
    rgb(0, 255, 0)
}

fn blue() -> Rgb {
    rgb(0, 0, 255)
}

fn checkerboard() -> Bitmap {
    let mut bm = Bitmap::new(2, 2, red());
    bm.set_pixel(1, 0, green());
    bm.set_pixel(0, 1, green());
    bm
}

/// Ticks until the session reports completion; panics after `cap` ticks.
fn run_to_completion(session: &mut Session, rng: &mut StdRng, cap: usize) -> usize {
    let mut restarts = 0;
    for _ in 0..cap {
        assert!(session.grid.attempts() < u32::MAX);
        match session.tick(rng) {
            TickOutcome::Stepped => {}
            TickOutcome::Restarted => restarts += 1,
            TickOutcome::Finished => return restarts,
            TickOutcome::Idle => panic!("session went idle before finishing"),
        }
    }
    panic!("solver did not converge within {} ticks", cap);
}

#[test]
fn single_red_pixel_fills_the_grid() {
    // 1x1 source, S = 1, 4x4 output: all red, whatever the seed
    for seed in [0u64, 7, 99] {
        let bm = Bitmap::new(1, 1, red());
        let mut session =
            Session::new(&bm, 1, BorderStyle::Looping, 4, 4, 10, false).unwrap();
        let mut rng = StdRng::seed_from_u64(seed);
        run_to_completion(&mut session, &mut rng, 1000);
        let out = render(&session.grid, session.tiles.as_slice());
        assert_eq!(out.width(), 4);
        assert_eq!(out.height(), 4);
        for y in 0..4u32 {
            for x in 0..4u32 {
                assert_eq!(out.get_pixel(x, y), red());
            }
        }
    }
}

#[test]
fn checkerboard_output_alternates() {
    let bm = checkerboard();
    let mut session = Session::new(&bm, 3, BorderStyle::Looping, 6, 6, 10, false).unwrap();
    let mut rng = StdRng::seed_from_u64(1);
    run_to_completion(&mut session, &mut rng, 100000);
    let out = render(&session.grid, session.tiles.as_slice());
    for y in 0..6u32 {
        for x in 0..6u32 {
            let p = out.get_pixel(x, y);
            assert!(p == red() || p == green());
            if x + 1 < 6 {
                assert_ne!(p, out.get_pixel(x + 1, y));
            }
            if y + 1 < 6 {
                assert_ne!(p, out.get_pixel(x, y + 1));
            }
        }
    }
}

#[test]
fn horizontal_stripes_keep_rows_uniform() {
    // 1-wide source reading R, R, G, G downward; 4x8 output
    let mut bm = Bitmap::new(1, 4, red());
    bm.set_pixel(0, 2, green());
    bm.set_pixel(0, 3, green());
    let mut session = Session::new(&bm, 3, BorderStyle::Looping, 4, 8, 10, false).unwrap();
    let mut rng = StdRng::seed_from_u64(5);
    run_to_completion(&mut session, &mut rng, 100000);
    let out = render(&session.grid, session.tiles.as_slice());
    let mut rows = Vec::new();
    for y in 0..8u32 {
        let c = out.get_pixel(0, y);
        for x in 1..4u32 {
            assert_eq!(out.get_pixel(x, y), c, "row {} is not uniform", y);
        }
        rows.push(c);
    }
    // away from the output border, every color run spans at least two rows
    for y in 1..7usize {
        assert!(
            rows[y] == rows[y - 1] || rows[y] == rows[y + 1],
            "row {} is an isolated stripe",
            y
        );
    }
}

#[test]
fn overconstrained_source_exhausts_and_restarts() {
    // 3x1 clamped R, G, B: the rightmost tile has no right-hand
    // neighbor, so propagation must empty a cell and force a restart
    let mut bm = Bitmap::new(3, 1, red());
    bm.set_pixel(1, 0, green());
    bm.set_pixel(2, 0, blue());
    let mut session = Session::new(&bm, 3, BorderStyle::Clamped, 10, 10, 10, false).unwrap();
    let mut rng = StdRng::seed_from_u64(3);
    assert_eq!(session.grid.attempts(), 0);
    let mut restarted = false;
    for _ in 0..10000 {
        match session.tick(&mut rng) {
            TickOutcome::Restarted => {
                restarted = true;
                break;
            }
            TickOutcome::Stepped => {}
            TickOutcome::Finished => break,
            TickOutcome::Idle => break,
        }
    }
    assert!(restarted, "the over-constrained grid never exhausted");
    assert!(session.grid.attempts() > 0);
    // the attempt counter feeds the propagation radius, which is
    // capped at width + height
    assert!(session.grid.max_depth() <= 20);
}

#[test]
fn frequency_bias_favors_the_common_color() {
    // 4-wide source R, R, R, G; 100x1 output; average red count over
    // 100 seeds must be at least 70
    let mut bm = Bitmap::new(4, 1, red());
    bm.set_pixel(3, 0, green());
    let mut total_red: u64 = 0;
    for seed in 0..100u64 {
        let mut session =
            Session::new(&bm, 3, BorderStyle::Looping, 100, 1, 10, false).unwrap();
        let mut rng = StdRng::seed_from_u64(seed);
        run_to_completion(&mut session, &mut rng, 100000);
        let out = render(&session.grid, session.tiles.as_slice());
        for x in 0..100u32 {
            if out.get_pixel(x, 0) == red() {
                total_red += 1;
            }
        }
    }
    let average = total_red / 100;
    assert!(average >= 70, "average red count {} is below 70", average);
}

#[test]
fn preview_mid_solve_has_no_conflict_pixels() {
    let bm = checkerboard();
    let mut session = Session::new(&bm, 3, BorderStyle::Looping, 6, 6, 10, false).unwrap();
    let mut rng = StdRng::seed_from_u64(2);
    let mut exhausted = false;
    for _ in 0..5 {
        match session.tick(&mut rng) {
            TickOutcome::Restarted => exhausted = true,
            _ => {}
        }
    }
    if !exhausted {
        let out = render(&session.grid, session.tiles.as_slice());
        let conflict = rgb(255, 0, 100);
        let zero = rgb(0, 0, 0);
        for y in 0..6u32 {
            for x in 0..6u32 {
                let p = out.get_pixel(x, y);
                assert_ne!(p, conflict);
                assert_ne!(p, zero);
            }
        }
    }
}

#[test]
fn fixed_seed_gives_identical_output() {
    let bm = checkerboard();
    let mut first: Option<Vec<Rgb>> = None;
    for _ in 0..2 {
        let mut session =
            Session::new(&bm, 3, BorderStyle::Looping, 6, 6, 10, false).unwrap();
        let mut rng = StdRng::seed_from_u64(42);
        run_to_completion(&mut session, &mut rng, 100000);
        let out = render(&session.grid, session.tiles.as_slice());
        let mut pixels = Vec::new();
        for y in 0..6u32 {
            for x in 0..6u32 {
                pixels.push(out.get_pixel(x, y));
            }
        }
        match &first {
            None => first = Some(pixels),
            Some(prev) => assert_eq!(prev, &pixels),
        }
    }
}

#[test]
fn repeat_mode_regenerates_without_counting_attempts() {
    let bm = Bitmap::new(1, 1, red());
    let mut session = Session::new(&bm, 1, BorderStyle::Looping, 2, 2, 10, true).unwrap();
    let mut rng = StdRng::seed_from_u64(0);
    let mut finishes = 0;
    for _ in 0..40 {
        match session.tick(&mut rng) {
            TickOutcome::Finished => finishes += 1,
            TickOutcome::Idle => panic!("repeat mode must keep collapsing"),
            _ => {}
        }
    }
    assert!(finishes >= 2, "repeat mode should complete more than once");
    assert_eq!(session.grid.attempts(), 0);
}

#[test]
fn even_tile_size_is_rejected() {
    let bm = checkerboard();
    let r = Session::new(&bm, 2, BorderStyle::Looping, 4, 4, 10, false);
    assert!(matches!(r, Err(SessionError::EvenTileSize)));
    let r2 = Session::new(&bm, 3, BorderStyle::Looping, 0, 4, 10, false);
    assert!(matches!(r2, Err(SessionError::ZeroDimension)));
}
