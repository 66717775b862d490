use colorscape::color::{channel_to_display, enumerate_colors, ColorBase};
use colorscape::grid::{ceil_sqrt, tor_dist_sq_exec, wrap_add, Loc};
use colorscape::offsets::{make_color_offsets, make_loc_offsets};

#[test]
fn toroidal_distance_wraps() {
    let a = Loc { row: 0, col: 0 };
    let b = Loc { row: 7, col: 0 };
    assert_eq!(tor_dist_sq_exec(a, b, 8), 1); // the short way round, not 49
    let c = Loc { row: 4, col: 4 };
    assert_eq!(tor_dist_sq_exec(a, c, 8), 32); // the farthest cell on an 8-torus
    let d = Loc { row: 2, col: 6 };
    assert_eq!(tor_dist_sq_exec(a, d, 8), 8); // 2*2 + 2*2, wrapping the column
    assert_eq!(tor_dist_sq_exec(a, a, 8), 0);
}

#[test]
fn wrap_add_stays_on_torus() {
    assert_eq!(wrap_add(7, 1, 8), 0);
    assert_eq!(wrap_add(0, -1, 8), 7);
    assert_eq!(wrap_add(3, 4, 8), 7);
    assert_eq!(wrap_add(3, -7, 8), 4);
}

#[test]
fn ceil_sqrt_exact() {
    assert_eq!(ceil_sqrt(0), 0);
    assert_eq!(ceil_sqrt(1), 1);
    assert_eq!(ceil_sqrt(8), 3);
    assert_eq!(ceil_sqrt(9), 3);
    assert_eq!(ceil_sqrt(10), 4);
    assert_eq!(ceil_sqrt(64), 8);
}

#[test]
fn channel_rescale_truncates() {
    assert_eq!(channel_to_display(0, 4), 0);
    assert_eq!(channel_to_display(1, 4), 85);
    assert_eq!(channel_to_display(2, 4), 170);
    assert_eq!(channel_to_display(3, 4), 255);
    assert_eq!(channel_to_display(5, 16), 85); // 5*255/15
    assert_eq!(channel_to_display(1, 3), 127); // 255/2 truncated
}

#[test]
fn enumeration_counts_and_order() {
    let colors = enumerate_colors(4, 64);
    assert_eq!(colors.len(), 64);
    assert_eq!(colors[0], ColorBase { r: 0, g: 0, b: 0 });
    assert_eq!(colors[1], ColorBase { r: 1, g: 0, b: 0 }); // red varies fastest
    assert_eq!(colors[4], ColorBase { r: 0, g: 1, b: 0 });
    assert_eq!(colors[16], ColorBase { r: 0, g: 0, b: 1 });
    assert_eq!(colors[63], ColorBase { r: 3, g: 3, b: 3 });
}

#[test]
fn offset_tables_sorted_by_magnitude() {
    let colors = enumerate_colors(4, 64);
    let offs = make_color_offsets(&colors, 4, 64);
    assert_eq!(offs.len(), 8 * 64);
    assert_eq!(offs[0].0, 0); // the zero offset comes first
    for w in offs.windows(2) {
        assert!(w[0].0 <= w[1].0);
    }
    let loc_offs = make_loc_offsets(8);
    assert_eq!(loc_offs.len(), 4 * 64);
    assert_eq!(loc_offs[0].0, 0);
    for w in loc_offs.windows(2) {
        assert!(w[0].0 <= w[1].0);
    }
}
