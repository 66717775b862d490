use colorscape::board::Board;
use colorscape::color::{color_base_to_color, ColorBase};
use colorscape::grid::Loc;
use colorscape::layout::{generate_layout, LayoutError};
use colorscape::render::render_grid;

use rand::seq::SliceRandom;
use rand::Rng;
use rand::SeedableRng;

fn toroidal_dist_sq(a: Loc, b: Loc, size: usize) -> i64 {
    let ax = |x: usize, y: usize| -> i64 {
        let d = if x >= y { (x - y) as i64 } else { (y - x) as i64 };
        d.min(size as i64 - d)
    };
    let dr = ax(a.row, b.row);
    let dc = ax(a.col, b.col);
    dr * dr + dc * dc
}

/// The example scenario: scale 2, one seed, seed 0, spacing off. The grid
/// is 8x8 with 4 levels per channel, 64 colors in 64 cells, every base
/// color placed exactly once, and the seed color's cell matches the first
/// draws from the seeded generator.
#[test]
fn example_scale2_one_seed() {
    let res = generate_layout(2, 1, 0, 500_000, false, 1, true);
    let b = res.expect("the single-seed run must succeed");
    assert_eq!(b.size, 8);
    assert_eq!(b.color_size, 4);
    assert_eq!(b.total, 64);
    assert_eq!(b.grid.len(), 64);

    // every cell filled, every color exactly once
    let mut seen = vec![0u32; 64];
    for cell in &b.grid {
        let cb = cell.expect("every cell is assigned");
        let idx = cb.r as usize + 4 * cb.g as usize + 16 * cb.b as usize;
        seen[idx] += 1;
    }
    for count in seen {
        assert_eq!(count, 1);
    }

    // replicate the generator's documented consumption order: the color
    // shuffle, the open-pool shuffle, then the first seed's row and column
    let mut rng = rand::rngs::StdRng::seed_from_u64(0);
    let mut colors: Vec<[u16; 3]> = (0..64u16)
        .map(|n| [n % 4, (n / 4) % 4, n / 16])
        .collect();
    colors.shuffle(&mut rng);
    let mut open: Vec<(usize, usize)> = (0..8usize)
        .flat_map(|r| (0..8usize).map(move |c| (r, c)))
        .collect();
    open.shuffle(&mut rng);
    let row: usize = rng.gen_range(0..8);
    let col: usize = rng.gen_range(0..8);
    let first = colors[0];
    let at = b.grid[row * 8 + col].expect("the seed cell is assigned");
    assert_eq!([at.r, at.g, at.b], first);
    assert_eq!(b.seed_locs.len(), 1);
    assert_eq!((b.seed_locs[0].row, b.seed_locs[0].col), (row, col));
}

/// A run with no seeds is refused as unsupported: the anchor lookup for
/// the first color would have nothing to find.
#[test]
fn zero_seeds_is_unsupported() {
    let res = generate_layout(2, 0, 0, 500_000, false, 1, true);
    assert!(matches!(res, Err(LayoutError::NoSeeds)));
}

/// Identical parameters give a bit-identical grid.
#[test]
fn determinism_same_parameters() {
    let a = generate_layout(2, 3, 7, 500_000, false, 2, true).unwrap();
    let b = generate_layout(2, 3, 7, 500_000, false, 2, true).unwrap();
    assert_eq!(a.grid, b.grid);
    assert_eq!(a.seed_locs, b.seed_locs);
    let c = generate_layout(2, 3, 8, 500_000, false, 2, true).unwrap();
    assert!(a.grid != c.grid, "a different seed should move some cell");
}

/// The unbiased walk with the spiral fallback also completes a bijection.
#[test]
fn unbiased_variant_completes() {
    let b = generate_layout(2, 1, 5, 0, false, 1, false).unwrap();
    let mut seen = vec![0u32; 64];
    for cell in &b.grid {
        let cb = cell.expect("every cell is assigned");
        let idx = cb.r as usize + 4 * cb.g as usize + 16 * cb.b as usize;
        seen[idx] += 1;
    }
    for count in seen {
        assert_eq!(count, 1);
    }
}

/// With spacing enabled, every pair of seed cells keeps toroidal distance
/// at least size / (2 * sqrt(num_seeds)).
#[test]
fn spacing_invariant_holds() {
    let b = generate_layout(2, 4, 3, 500_000, true, 1, true).unwrap();
    assert_eq!(b.seed_locs.len(), 4);
    let size = b.size;
    for i in 0..b.seed_locs.len() {
        for j in (i + 1)..b.seed_locs.len() {
            let d = toroidal_dist_sq(b.seed_locs[i], b.seed_locs[j], size);
            assert!(
                4 * (b.seed_locs.len() as i64) * d >= (size * size) as i64,
                "seeds too close: {:?} {:?}",
                b.seed_locs[i],
                b.seed_locs[j]
            );
        }
    }
}

/// Color fidelity: the rendered 8-bit color is base * 255 / (color_size-1)
/// per channel, with integer truncation.
#[test]
fn color_fidelity_exact() {
    let px = color_base_to_color(ColorBase { r: 3, g: 0, b: 1 }, 4);
    assert_eq!((px.r, px.g, px.b), (255, 0, 85));
    let px = color_base_to_color(ColorBase { r: 2, g: 1, b: 3 }, 4);
    assert_eq!((px.r, px.g, px.b), (170, 85, 255));
    // truncation, not rounding: 1 * 255 / 8 = 31.875 -> 31
    let px = color_base_to_color(ColorBase { r: 1, g: 7, b: 8 }, 9);
    assert_eq!((px.r, px.g, px.b), (31, 223, 255));

    let b = generate_layout(2, 1, 11, 500_000, false, 1, true).unwrap();
    let img = render_grid(&b);
    assert_eq!(img.len(), 8);
    for r in 0..8 {
        assert_eq!(img[r].len(), 8);
        for c in 0..8 {
            let cb = b.grid[r * 8 + c].unwrap();
            let px = img[r][c];
            assert_eq!(px.r as u64, cb.r as u64 * 255 / 3);
            assert_eq!(px.g as u64, cb.g as u64 * 255 / 3);
            assert_eq!(px.b as u64, cb.b as u64 * 255 / 3);
        }
    }
}

/// The one-call operation agrees with generating and rendering in two
/// steps under the same parameters.
#[test]
fn generate_image_matches_two_steps() {
    let img = colorscape::layout::generate_image(2, 1, 9, 500_000, false, 1, true).unwrap();
    let b = generate_layout(2, 1, 9, 500_000, false, 1, true).unwrap();
    assert_eq!(img, render_grid(&b));
    assert!(matches!(
        colorscape::layout::generate_image(2, 0, 9, 500_000, false, 1, true),
        Err(LayoutError::NoSeeds)
    ));
}

fn color_of_rank(n: u16) -> ColorBase {
    ColorBase { r: n % 4, g: (n / 4) % 4, b: n / 16 }
}

/// The spiral fallback keeps the **last** empty cell of its fixed scan,
/// not the nearest one: with empties at (0,1) and (0,2) seen from (0,0),
/// the nearer (0,1) is probed again by the wrapped offset (0,-7) of
/// squared magnitude 49, after (0,2)'s last probe at 36, so it wins.
#[test]
fn spiral_fallback_takes_last_empty() {
    let mut b = Board::new(2);
    let mut rank: u16 = 0;
    for r in 0..8usize {
        for c in 0..8usize {
            if r == 0 && (c == 1 || c == 2) {
                continue;
            }
            b.fill(color_of_rank(rank), Loc { row: r, col: c });
            rank += 1;
        }
    }
    let offs = colorscape::offsets::make_loc_offsets(8);
    let got = colorscape::layout::fallback_spiral(&b, Loc { row: 0, col: 0 }, &offs);
    assert_eq!(got, Some(Loc { row: 0, col: 1 }));
}

/// The sampling fallback scans only the first `budget` open entries and
/// returns the first entry of minimal toroidal distance.
#[test]
fn sampling_fallback_prefix_minimum() {
    let b = Board::new(2);
    // fresh board: open pool is in row-major order (0,0), (0,1), (0,2), ...
    let j = colorscape::layout::fallback_sample(&b, Loc { row: 0, col: 3 }, 2);
    assert_eq!(j, 1, "of the scanned prefix (0,0), (0,1), cell (0,1) is nearer to (0,3)");
    let j = colorscape::layout::fallback_sample(&b, Loc { row: 0, col: 3 }, 4);
    assert_eq!(j, 3, "with a budget of 4 the exact cell (0,3) is in reach");
}

/// Anchor lookup returns the cell of the closest placed color, and finds
/// nothing on an empty board.
#[test]
fn anchor_lookup_closest() {
    let mut b = Board::new(2);
    let colors = colorscape::color::enumerate_colors(4, 64);
    let offs = colorscape::offsets::make_color_offsets(&colors, 4, 64);

    let query = ColorBase { r: 0, g: 0, b: 0 };
    assert_eq!(colorscape::layout::find_anchor(&b, query, &offs), None);

    // (3,3,3) is far from the query, (1,0,0) is near
    b.fill(ColorBase { r: 3, g: 3, b: 3 }, Loc { row: 5, col: 5 });
    assert_eq!(
        colorscape::layout::find_anchor(&b, query, &offs),
        Some(Loc { row: 5, col: 5 })
    );
    b.fill(ColorBase { r: 1, g: 0, b: 0 }, Loc { row: 2, col: 7 });
    assert_eq!(
        colorscape::layout::find_anchor(&b, query, &offs),
        Some(Loc { row: 2, col: 7 })
    );
}

/// The biased turn picks, of the two perpendicular directions, the one
/// whose neighbor is closest in color; empty neighbors win, ties go
/// clockwise.
#[test]
fn biased_turn_prefers_similar_neighbor() {
    let mut b = Board::new(2);
    let color = ColorBase { r: 0, g: 0, b: 0 };
    let pos = Loc { row: 4, col: 4 };
    // both perpendicular neighbors empty: a tie, clockwise (last + 1) wins
    assert_eq!(colorscape::layout::biased_turn(&b, color, pos, 0), 1);
    // direction 1 leads to (4,5), direction 3 to (4,3)
    b.fill(ColorBase { r: 3, g: 3, b: 3 }, Loc { row: 4, col: 5 });
    b.fill(ColorBase { r: 0, g: 0, b: 1 }, Loc { row: 4, col: 3 });
    assert_eq!(colorscape::layout::biased_turn(&b, color, pos, 0), 3);
}

/// The no-reversal rule can keep or turn but never exactly reverses.
#[test]
fn no_reversal_never_reverses() {
    for last in 0..4usize {
        for delta in 0..3usize {
            let d = colorscape::layout::no_reversal_direction(last, delta);
            assert!(d < 4);
            assert_ne!(d, (last + 2) % 4);
        }
    }
    assert_eq!(colorscape::layout::no_reversal_direction(2, 0), 2);
    assert_eq!(colorscape::layout::no_reversal_direction(2, 1), 3);
    assert_eq!(colorscape::layout::no_reversal_direction(2, 2), 1);
}

/// Once a non-seed color occupies a cell, later placements never
/// overwrite it: growing one color changes exactly one empty cell.
#[test]
fn growth_never_overwrites() {
    let mut b = Board::new(2);
    let colors = colorscape::color::enumerate_colors(4, 64);
    let offs = colorscape::offsets::make_color_offsets(&colors, 4, 64);
    let loc_offs = colorscape::offsets::make_loc_offsets(8);
    let mut rng = rand::rngs::StdRng::seed_from_u64(42);
    b.fill(ColorBase { r: 0, g: 0, b: 0 }, Loc { row: 4, col: 4 });

    let mut placed: Vec<(usize, ColorBase)> = vec![(4 * 8 + 4, ColorBase { r: 0, g: 0, b: 0 })];
    for n in 1..64u16 {
        let color = color_of_rank(n);
        let before = b.grid.clone();
        colorscape::layout::place_growth_color(
            &mut b, color, &offs, &loc_offs, 3, true, 500_000, &mut rng,
        );
        let mut changed = 0;
        for ci in 0..64 {
            if before[ci].is_some() {
                assert_eq!(b.grid[ci], before[ci], "occupied cell {} was rewritten", ci);
            } else if b.grid[ci] != before[ci] {
                assert_eq!(b.grid[ci], Some(color));
                changed += 1;
            }
        }
        assert_eq!(changed, 1);
        for (ci, c) in &placed {
            assert_eq!(b.grid[*ci], Some(*c));
        }
        let ci = (0..64).find(|&ci| before[ci].is_none() && b.grid[ci].is_some()).unwrap();
        placed.push((ci, color));
    }
}
