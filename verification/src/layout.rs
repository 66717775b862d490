use vstd::prelude::*;
use crate::board::{contents_from, grid_injective, placed_prefix, Board};
use crate::color::{color_dist_sq, color_index, valid_color, ColorBase};
use crate::color::{lemma_color_index_bounds, lemma_color_index_distinct};
use crate::grid::{lemma_cell_of_bounds, lemma_tor_dist_sq_bounds};
use crate::grid::{cell_of, tor_dist_sq, tor_dist_sq_exec, valid_loc, wrap_add, wrap_index, Loc};
use crate::offsets::{
    color_offsets_ok, loc_offset_in_range, loc_offsets_ok, offset_in_range, offset_mag,
    ColorOffset, LocOffset,
};
use crate::rng::rng_below;

verus! {

/// Why a run could not produce a layout.
#[derive(Clone, Copy, PartialEq, Eq, Structural, Debug)]
pub enum LayoutError {
    /// A run with no seeds is an unsupported configuration: the anchor
    /// lookup for the very first non-seed color would have nothing to find.
    NoSeeds,
    /// The spacing requirement rejected every candidate cell for one seed
    /// within the retry budget: the configuration is treated as infeasible.
    SpacingInfeasible,
}

/// How many rejected draws one seed tolerates before the run gives up on
/// the spacing requirement.
pub const SEED_RETRY_CAP: usize = 10000;

/// The spacing invariant: every pair of seed cells lies at toroidal
/// distance at least `size / (2 * sqrt(num_seeds))`; stated exactly, with
/// both sides squared: `4 * num_seeds * dist_sq >= size * size`.
pub open spec fn seeds_spaced(locs: Seq<Loc>, num_seeds: int, size: int) -> bool {
    forall|i: int, j: int|
        0 <= i < j < locs.len() ==> 4 * num_seeds * tor_dist_sq(
            #[trigger] locs[i],
            #[trigger] locs[j],
            size,
        ) >= size * size
}

/// Whether some already-chosen seed cell is too close to the candidate:
/// nearer than `size / (2 * sqrt(num_seeds))` on the torus. The bound on
/// `num_seeds` is the largest cell count, `16777216 * 16777216`; it keeps
/// the 128-bit comparison below free of overflow.
fn too_close(locs: &Vec<Loc>, cand: Loc, num_seeds: usize, size: usize) -> (r: bool)
    requires
        1 <= size <= 16777216,
        num_seeds <= 281474976710656,
        forall|a: int| 0 <= a < locs@.len() ==> valid_loc(#[trigger] locs@[a], size as int),
        valid_loc(cand, size as int),
    ensures
        r <==> exists|a: int|
            0 <= a < locs@.len() && 4 * num_seeds * tor_dist_sq(
                #[trigger] locs@[a],
                cand,
                size as int,
            ) < size * size,
{
    let n = locs.len();
    proof {
        assert((size as int) * (size as int) <= 16777216 * 16777216) by (nonlinear_arith)
            requires 1 <= size <= 16777216;
    }
    let rhs: u128 = (size as u128) * (size as u128);
    let mut a: usize = 0;
    while a < n
        invariant
            1 <= size <= 16777216,
            num_seeds <= 281474976710656,
            n == locs@.len(),
            forall|a1: int| 0 <= a1 < n ==> valid_loc(#[trigger] locs@[a1], size as int),
            valid_loc(cand, size as int),
            rhs == (size as int) * (size as int),
            rhs <= 16777216 * 16777216,
            0 <= a <= n,
            forall|a1: int|
                0 <= a1 < a ==> 4 * num_seeds * tor_dist_sq(
                    #[trigger] locs@[a1],
                    cand,
                    size as int,
                ) >= size * size,
        decreases n - a,
    {
        let d = tor_dist_sq_exec(locs[a], cand, size);
        proof {
            lemma_tor_dist_sq_bounds(locs@[a as int], cand, size as int);
        }
        let ns128: u128 = num_seeds as u128;
        let d128: u128 = d as u128;
        let t1: u128 = 4 * ns128;
        proof {
            vstd::arithmetic::mul::lemma_mul_upper_bound(
                t1 as int,
                1125899906842624,
                d128 as int,
                562949953421312,
            );
            vstd::arithmetic::mul::lemma_mul_nonnegative(t1 as int, d128 as int);
            assert((t1 as int) * (d128 as int) == 4 * (num_seeds as int) * (d as int))
                by (nonlinear_arith)
                requires
                    t1 as int == 4 * (num_seeds as int),
                    d128 as int == d as int,
            ;
        }
        let lhs: u128 = t1 * d128;
        if lhs < rhs {
            return true;
        }
        a = a + 1;
    }
    false
}

/// Seed placement: puts the first `num_seeds` colors of the processing
/// order at random cells. With spacing on, each candidate cell is redrawn
/// while it sits nearer than `size / (2 * sqrt(num_seeds))` to an earlier
/// seed, and the run fails as infeasible once a seed exhausts its retry
/// budget. With spacing off nothing is rejected, and two seeds that draw
/// the same cell silently overwrite (an accepted trait of that
/// configuration).
pub fn place_seeds(
    b: &mut Board,
    colors: &Vec<ColorBase>,
    num_seeds: usize,
    spacing: bool,
    rng: &mut rand::rngs::StdRng,
) -> (res: Result<(), LayoutError>)
    requires
        old(b).wf(),
        old(b).open_ok(),
        old(b).seed_locs@.len() == 0,
        forall|i: int| 0 <= i < old(b).total ==> (#[trigger] old(b).grid@[i]) is None,
        forall|k: int| 0 <= k < old(b).total ==> (#[trigger] old(b).map@[k]) is None,
        old(b).open@.len() == old(b).total,
        colors@.len() == old(b).total,
        forall|n: int|
            0 <= n < colors@.len() ==> valid_color(
                #[trigger] colors@[n],
                old(b).color_size as int,
            ),
        colors@.no_duplicates(),
        num_seeds <= old(b).total,
    ensures
        final(b).wf(),
        final(b).open_ok(),
        final(b).scale == old(b).scale,
        final(b).color_size == old(b).color_size,
        final(b).size == old(b).size,
        final(b).total == old(b).total,
        res is Err ==> res == Err::<(), LayoutError>(LayoutError::SpacingInfeasible) && spacing,
        !spacing ==> res is Ok,
        res is Ok ==> {
            &&& final(b).seed_locs@.len() == num_seeds
            &&& grid_injective(final(b).grid@)
            &&& contents_from(final(b).grid@, colors@, num_seeds as int)
            &&& final(b).open@.len() >= final(b).total - num_seeds
            &&& (num_seeds >= 1 ==> final(b).map_has(colors@[0]))
            &&& (spacing ==> seeds_spaced(
                final(b).seed_locs@,
                num_seeds as int,
                final(b).size as int,
            ))
            &&& ((spacing || num_seeds <= 1) ==> placed_prefix(*final(b), colors@, num_seeds as int)
                && final(b).open@.len() == final(b).total - num_seeds && (forall|ci: int|
                0 <= ci < final(b).total && (#[trigger] final(b).grid@[ci]) is Some ==> exists|
                k: int|
                    0 <= k < num_seeds && ci == cell_of(
                        #[trigger] final(b).seed_locs@[k],
                        final(b).size as int,
                    )))
        },
{
    let size = b.size;
    let cs = b.color_size;
    let total = b.total;
    let ghost nocol = spacing || num_seeds <= 1;
    proof {
        assert(total <= 281474976710656) by (nonlinear_arith)
            requires total == (size as int) * (size as int), 1 <= size <= 16777216;
    }
    let mut i: usize = 0;
    while i < num_seeds
        invariant
            b.wf(),
            b.open_ok(),
            b.scale == old(b).scale,
            b.color_size == old(b).color_size,
            b.size == old(b).size,
            b.total == old(b).total,
            size == b.size,
            cs == b.color_size,
            total == b.total,
            nocol == (spacing || num_seeds <= 1),
            colors@.len() == total,
            forall|n: int| 0 <= n < colors@.len() ==> valid_color(#[trigger] colors@[n], cs as int),
            colors@.no_duplicates(),
            num_seeds <= total,
            num_seeds <= 281474976710656,
            0 <= i <= num_seeds,
            b.seed_locs@.len() == i,
            grid_injective(b.grid@),
            contents_from(b.grid@, colors@, i as int),
            b.open@.len() >= total - i,
            i >= 1 ==> b.map_has(colors@[0]),
            spacing ==> seeds_spaced(b.seed_locs@, num_seeds as int, size as int),
            nocol ==> placed_prefix(*b, colors@, i as int) && b.open@.len() == total - i && (forall|
            ci: int|
                0 <= ci < total && (#[trigger] b.grid@[ci]) is Some ==> exists|k: int|
                    0 <= k < i && ci == cell_of(#[trigger] b.seed_locs@[k], size as int)),
        decreases num_seeds - i,
    {
        let row = rng_below(rng, size);
        let col = rng_below(rng, size);
        let mut cand = Loc { row, col };
        if spacing {
            let mut attempts: usize = 0;
            loop
                invariant
                    b.wf(),
                    b.open_ok(),
                    b.scale == old(b).scale,
                    b.color_size == old(b).color_size,
                    b.size == old(b).size,
                    b.total == old(b).total,
                    valid_loc(cand, size as int),
                    size == b.size,
                    1 <= size <= 16777216,
                    spacing,
                    num_seeds <= 281474976710656,
                    forall|a: int|
                        0 <= a < b.seed_locs@.len() ==> valid_loc(
                            #[trigger] b.seed_locs@[a],
                            size as int,
                        ),
                    0 <= attempts <= SEED_RETRY_CAP,
                ensures
                    valid_loc(cand, size as int),
                    forall|a: int|
                        0 <= a < b.seed_locs@.len() ==> 4 * num_seeds * tor_dist_sq(
                            #[trigger] b.seed_locs@[a],
                            cand,
                            size as int,
                        ) >= size * size,
                decreases SEED_RETRY_CAP - attempts,
            {
                let tc = too_close(&b.seed_locs, cand, num_seeds, size);
                if !tc {
                    break ;
                }
                if attempts >= SEED_RETRY_CAP {
                    return Err(LayoutError::SpacingInfeasible);
                }
                attempts = attempts + 1;
                let row2 = rng_below(rng, size);
                let col2 = rng_below(rng, size);
                cand = Loc { row: row2, col: col2 };
            }
        }
        let color = colors[i];
        let ghost bpre = *b;
        let ghost gpre = b.grid@;
        let ghost spre = b.seed_locs@;
        proof {
            lemma_cell_of_bounds(cand, size as int);
            lemma_color_index_bounds(color, cs as int);
            if nocol && b.grid@[cell_of(cand, size as int)] is Some {
                // under spacing the accepted cell is distinct from every
                // earlier seed cell, and only seed cells are occupied
                let k = choose|k: int|
                    0 <= k < i && cell_of(cand, size as int) == cell_of(
                        #[trigger] b.seed_locs@[k],
                        size as int,
                    );
                crate::grid::lemma_cell_of_injective(cand, b.seed_locs@[k], size as int);
                assert(spacing);
                let lk = b.seed_locs@[k];
                assert(cand == lk);
                assert(4 * num_seeds * tor_dist_sq(lk, cand, size as int) >= size * size);
                assert(lk.row == cand.row && lk.col == cand.col);
                let ar = crate::grid::axis_dist(lk.row as int, cand.row as int, size as int);
                let ac = crate::grid::axis_dist(lk.col as int, cand.col as int, size as int);
                assert(ar == 0);
                assert(ac == 0);
                let t = tor_dist_sq(lk, cand, size as int);
                assert(t == ar * ar + ac * ac);
                assert(ar * ar + ac * ac == 0) by (nonlinear_arith)
                    requires ar == 0, ac == 0;
                assert(4 * (num_seeds as int) * t == 0) by (nonlinear_arith)
                    requires t == 0;
                assert((size as int) * (size as int) > 0) by (nonlinear_arith)
                    requires size >= 1;
                assert(false);
            }
        }
        b.fill(color, cand);
        b.seed_locs.push(cand);
        proof {
            let ci = cell_of(cand, size as int);
            let rank = color_index(color, cs as int);
            // injectivity: the placed color was nowhere on the grid yet
            assert forall|c1: int, c2: int|
                0 <= c1 < c2 < b.grid@.len() && (#[trigger] b.grid@[c1]) is Some implies (
            #[trigger] b.grid@[c2]) != b.grid@[c1] by {
                if c1 != ci && c2 != ci {
                } else {
                    let other: int = if c1 == ci {
                        c2
                    } else {
                        c1
                    };
                    if b.grid@[other] is Some {
                        let k = choose|k: int|
                            0 <= k < i && #[trigger] colors@[k] == gpre[other]->Some_0;
                        assert(colors@[k] != colors@[i as int]);
                    }
                }
            }
            assert forall|c1: int|
                0 <= c1 < b.grid@.len() && (#[trigger] b.grid@[c1]) is Some implies exists|k: int|
                0 <= k < i + 1 && #[trigger] colors@[k] == b.grid@[c1]->Some_0 by {
                if c1 == ci {
                    assert(colors@[i as int] == b.grid@[c1]->Some_0);
                } else {
                    let k = choose|k: int| 0 <= k < i && #[trigger] colors@[k] == gpre[c1]->Some_0;
                    assert(colors@[k] == b.grid@[c1]->Some_0);
                }
            }
            assert(contents_from(b.grid@, colors@, i + 1 as int));
            if nocol {
                assert forall|k: int| 0 <= k < i + 1 implies {
                    &&& (#[trigger] b.map@[color_index(colors@[k], cs as int)]) is Some
                    &&& b.grid@[cell_of(
                        b.map@[color_index(colors@[k], cs as int)]->Some_0,
                        size as int,
                    )] == Some(colors@[k])
                } by {
                    if k < i {
                        assert(colors@[k] != colors@[i as int]);
                        lemma_color_index_distinct(colors@[k], colors@[i as int], cs as int);
                        lemma_color_index_bounds(colors@[k], cs as int);
                        assert(b.map@[color_index(colors@[k], cs as int)] == bpre.map@[color_index(
                            colors@[k],
                            cs as int,
                        )]);
                        let lk = b.map@[color_index(colors@[k], cs as int)]->Some_0;
                        lemma_cell_of_bounds(lk, size as int);
                        if cell_of(lk, size as int) == ci {
                            assert(gpre[ci] == Some(colors@[k]));
                            assert(false);
                        }
                        assert(b.grid@[cell_of(lk, size as int)] == gpre[cell_of(lk, size as int)]);
                    } else {
                        assert(b.map@[color_index(colors@[i as int], cs as int)] == Some(cand));
                        assert(b.grid@[ci] == Some(colors@[i as int]));
                    }
                }
                assert(placed_prefix(*b, colors@, i + 1 as int));
                assert forall|c1: int|
                    0 <= c1 < total && (#[trigger] b.grid@[c1]) is Some implies exists|k: int|
                    0 <= k < i + 1 && c1 == cell_of(#[trigger] b.seed_locs@[k], size as int) by {
                    if c1 == ci {
                        assert(b.seed_locs@[i as int] == cand);
                    } else {
                        assert(gpre[c1] is Some);
                        let k = choose|k: int|
                            0 <= k < i && c1 == cell_of(#[trigger] spre[k], size as int);
                        assert(b.seed_locs@[k] == spre[k]);
                    }
                }
            }
            if i == 0 {
                assert(b.map@[rank] is Some);
            } else {
                assert(colors@[0] != colors@[i as int]);
                lemma_color_index_distinct(colors@[0], colors@[i as int], cs as int);
                lemma_color_index_bounds(colors@[0], cs as int);
                assert(b.map@[color_index(colors@[0], cs as int)] == bpre.map@[color_index(
                    colors@[0],
                    cs as int,
                )]);
            }
            // spacing: the new seed keeps every pair far enough apart
            if spacing {
                assert forall|a1: int, a2: int|
                    0 <= a1 < a2 < b.seed_locs@.len() implies 4 * num_seeds * tor_dist_sq(
                    #[trigger] b.seed_locs@[a1],
                    #[trigger] b.seed_locs@[a2],
                    size as int,
                ) >= size * size by {
                    if a2 == i as int {
                        assert(b.seed_locs@[a1] == spre[a1]);
                        assert(b.seed_locs@[a2] == cand);
                    } else {
                        assert(b.seed_locs@[a1] == spre[a1] && b.seed_locs@[a2] == spre[a2]);
                    }
                }
            }
        }
        i = i + 1;
    }
    Ok(())
}
pub open spec fn shift_ok(c: ColorBase, o: ColorOffset, cs: int) -> bool {
    &&& 0 <= c.r + o.dr < cs
    &&& 0 <= c.g + o.dg < cs
    &&& 0 <= c.b + o.db < cs
}

/// The color reached from `c` by the displacement `o`.
pub open spec fn shifted(c: ColorBase, o: ColorOffset) -> ColorBase {
    ColorBase { r: (c.r + o.dr) as u16, g: (c.g + o.dg) as u16, b: (c.b + o.db) as u16 }
}

/// Shifting by `o` moves a color by exactly the squared magnitude of `o`.
proof fn lemma_shift_dist(c: ColorBase, o: ColorOffset, cs: int)
    requires
        2 <= cs <= 65536,
        valid_color(c, cs),
        shift_ok(c, o, cs),
    ensures
        valid_color(shifted(c, o), cs),
        color_dist_sq(c, shifted(c, o)) == offset_mag(o),
{
    let s = shifted(c, o);
    assert(s.r as int == c.r + o.dr && s.g as int == c.g + o.dg && s.b as int == c.b + o.db);
    assert((c.r - s.r) * (c.r - s.r) + (c.g - s.g) * (c.g - s.g) + (c.b - s.b) * (c.b - s.b)
        == o.dr * o.dr + o.dg * o.dg + o.db * o.db) by (nonlinear_arith)
        requires
            s.r as int == c.r + o.dr,
            s.g as int == c.g + o.dg,
            s.b as int == c.b + o.db,
    ;
}

/// `c2` is a placed color at least as close to `color` as any other placed
/// color: the anchor lookup's target.
pub open spec fn nearest_placed(b: Board, color: ColorBase, c2: ColorBase) -> bool {
    &&& b.map_has(c2)
    &&& forall|c3: ColorBase|
        #[trigger] b.map_has(c3) ==> color_dist_sq(color, c2) <= color_dist_sq(color, c3)
}

/// Anchor lookup: scans the magnitude-sorted offset table and returns the
/// recorded cell of the first (hence closest) already-placed color near
/// `color`; `None` exactly when nothing has been placed yet.
pub fn find_anchor(b: &Board, color: ColorBase, offs: &Vec<(i64, ColorOffset)>) -> (r: Option<Loc>)
    requires
        b.wf(),
        valid_color(color, b.color_size as int),
        color_offsets_ok(offs@, b.color_size as int),
    ensures
        r is Some ==> valid_loc(r->Some_0, b.size as int),
        r is Some ==> exists|c2: ColorBase|
            #[trigger] nearest_placed(*b, color, c2) && b.map@[color_index(
                c2,
                b.color_size as int,
            )] == Some(r->Some_0),
        r is None ==> forall|c2: ColorBase| !(#[trigger] b.map_has(c2)),
        (exists|c2: ColorBase| #[trigger] b.map_has(c2)) ==> r is Some,
{
    let cs = b.color_size;
    let len = offs.len();
    let mut j: usize = 0;
    while j < len
        invariant
            b.wf(),
            valid_color(color, cs as int),
            cs == b.color_size,
            color_offsets_ok(offs@, cs as int),
            len == offs@.len(),
            0 <= j <= len,
            forall|j1: int|
                0 <= j1 < j && shift_ok(color, (#[trigger] offs@[j1]).1, cs as int) ==> b.map@[color_index(
                    shifted(color, offs@[j1].1),
                    cs as int,
                )] is None,
        decreases len - j,
    {
        let o = offs[j].1;
        let rr: i32 = color.r as i32 + o.dr;
        let gg: i32 = color.g as i32 + o.dg;
        let bb: i32 = color.b as i32 + o.db;
        if 0 <= rr && rr < cs as i32 && 0 <= gg && gg < cs as i32 && 0 <= bb && bb < cs as i32 {
            let cand = ColorBase { r: rr as u16, g: gg as u16, b: bb as u16 };
            proof {
                assert(shift_ok(color, o, cs as int));
                assert(cand == shifted(color, o));
                lemma_shift_dist(color, o, cs as int);
            }
            match b.map_at(cand) {
                Some(l) => {
                    proof {
                        crate::color::lemma_color_index_bounds(cand, cs as int);
                        assert(b.map@[color_index(cand, cs as int)] is Some);
                        assert(valid_loc(l, b.size as int));
                        assert(b.map_has(cand));
                        assert forall|c3: ColorBase| #[trigger] b.map_has(c3) implies color_dist_sq(
                            color,
                            cand,
                        ) <= color_dist_sq(color, c3) by {
                            let o3 = ColorOffset {
                                dr: (c3.r - color.r) as i32,
                                dg: (c3.g - color.g) as i32,
                                db: (c3.b - color.b) as i32,
                            };
                            assert(offset_in_range(o3, cs as int));
                            assert(shift_ok(color, o3, cs as int));
                            assert(shifted(color, o3) == c3);
                            lemma_shift_dist(color, o3, cs as int);
                            let j3 = choose|j3: int|
                                0 <= j3 < offs@.len() && (#[trigger] offs@[j3]).1 == o3;
                            assert(j3 >= j);
                            assert(offs@[j as int].0 <= offs@[j3].0);
                        }
                        assert(nearest_placed(*b, color, cand));
                    }
                    return Some(l);
                },
                None => {},
            }
        }
        j = j + 1;
    }
    proof {
        assert forall|c2: ColorBase| !(#[trigger] b.map_has(c2)) by {
            if b.map_has(c2) {
                let o2 = ColorOffset {
                    dr: (c2.r - color.r) as i32,
                    dg: (c2.g - color.g) as i32,
                    db: (c2.b - color.b) as i32,
                };
                assert(offset_in_range(o2, cs as int));
                assert(shift_ok(color, o2, cs as int));
                assert(shifted(color, o2) == c2);
                let j2 = choose|j2: int| 0 <= j2 < offs@.len() && (#[trigger] offs@[j2]).1 == o2;
                assert(b.map@[color_index(shifted(color, offs@[j2].1), cs as int)] is None);
            }
        }
    }
    None
}

/// How attractive the cell `l` is to `color` during the biased walk: the
/// squared color distance to its occupant, or zero for an empty cell.
pub open spec fn neighbor_score(b: Board, color: ColorBase, l: Loc) -> int {
    if b.grid@[cell_of(l, b.size as int)] is Some {
        color_dist_sq(color, b.grid@[cell_of(l, b.size as int)]->Some_0)
    } else {
        0
    }
}

/// Computes the biased walk's score of a neighbor cell.
fn neighbor_score_exec(b: &Board, color: ColorBase, l: Loc) -> (s: i64)
    requires
        b.wf(),
        valid_color(color, b.color_size as int),
        valid_loc(l, b.size as int),
    ensures
        s == neighbor_score(*b, color, l),
{
    match b.grid_at(l) {
        Some(c2) => {
            let dr: i64 = color.r as i64 - c2.r as i64;
            let dg: i64 = color.g as i64 - c2.g as i64;
            let db: i64 = color.b as i64 - c2.b as i64;
            proof {
                assert(0 <= dr * dr <= 65536 * 65536 && 0 <= dg * dg <= 65536 * 65536 && 0 <= db
                    * db <= 65536 * 65536 && dr * dr + dg * dg <= 2 * 65536 * 65536 && dr * dr + dg
                    * dg + db * db <= 3 * 65536 * 65536) by (nonlinear_arith)
                    requires -65536 <= dr <= 65536, -65536 <= dg <= 65536, -65536 <= db <= 65536;
            }
            dr * dr + dg * dg + db * db
        },
        None => 0,
    }
}

/// Row displacement of the cardinal direction `d`.
pub open spec fn dir_dr(d: int) -> int {
    if d == 0 {
        1
    } else if d == 2 {
        -1
    } else {
        0
    }
}

/// Column displacement of the cardinal direction `d`.
pub open spec fn dir_dc(d: int) -> int {
    if d == 1 {
        1
    } else if d == 3 {
        -1
    } else {
        0
    }
}

/// Moves one cell in direction `d`, wrapping on the torus.
pub fn step_loc(l: Loc, d: usize, size: usize) -> (r: Loc)
    requires
        2 <= size <= 16777216,
        valid_loc(l, size as int),
        d < 4,
    ensures
        valid_loc(r, size as int),
        r.row as int == wrap_index(l.row + dir_dr(d as int), size as int),
        r.col as int == wrap_index(l.col + dir_dc(d as int), size as int),
{
    let (dr, dc): (i32, i32) = if d == 0 {
        (1, 0)
    } else if d == 1 {
        (0, 1)
    } else if d == 2 {
        (-1, 0)
    } else {
        (0, -1)
    };
    Loc { row: wrap_add(l.row, dr, size), col: wrap_add(l.col, dc, size) }
}

/// The cell one step from `l` in direction `d`.
pub open spec fn stepped(l: Loc, d: int, size: int) -> Loc {
    Loc {
        row: wrap_index(l.row + dir_dr(d), size) as usize,
        col: wrap_index(l.col + dir_dc(d), size) as usize,
    }
}

/// The similarity-biased turn: of the two directions perpendicular to
/// `last`, the one whose neighbor cell holds the color closest to `color`
/// (an empty neighbor scores zero, so it is maximally attractive); on a
/// tie, the clockwise one, `last + 1`.
pub fn biased_turn(b: &Board, color: ColorBase, pos: Loc, last: usize) -> (d: usize)
    requires
        b.wf(),
        valid_color(color, b.color_size as int),
        valid_loc(pos, b.size as int),
        last < 4,
    ensures
        d < 4,
        d == (if neighbor_score(*b, color, stepped(pos, ((last + 1) % 4) as int, b.size as int))
            <= neighbor_score(*b, color, stepped(pos, ((last + 3) % 4) as int, b.size as int)) {
            (last + 1) % 4
        } else {
            (last + 3) % 4
        }),
{
    let d1 = (last + 1) % 4;
    let d3 = (last + 3) % 4;
    let n1 = step_loc(pos, d1, b.size);
    let n3 = step_loc(pos, d3, b.size);
    let s1 = neighbor_score_exec(b, color, n1);
    let s3 = neighbor_score_exec(b, color, n3);
    if s1 <= s3 {
        d1
    } else {
        d3
    }
}

/// The unbiased no-reversal rule: adds a non-reversing delta (0, 1 or 3,
/// never 2) to the direction index, so a step never exactly undoes the
/// previous one.
pub fn no_reversal_direction(last: usize, delta: usize) -> (d: usize)
    requires
        last < 4,
        delta < 3,
    ensures
        d < 4,
        d == (last + (if delta == 2 { 3int } else { delta as int })) % 4,
        d != ((last + 2) % 4),
{
    let delta2 = if delta == 2 {
        3
    } else {
        delta
    };
    (last + delta2) % 4
}

/// The growth walk: up to `budget` direction-biased (or no-reversal) random
/// steps on the torus from `start`, stopping early on an empty cell. The
/// flag says whether the returned cell is empty; when it is false the
/// budget ran out on occupied cells and the fallback search takes over.
pub fn growth_walk(
    b: &Board,
    color: ColorBase,
    start: Loc,
    budget: usize,
    biased: bool,
    divergence_ppm: u32,
    rng: &mut rand::rngs::StdRng,
) -> (r: (Loc, bool))
    requires
        b.wf(),
        valid_color(color, b.color_size as int),
        valid_loc(start, b.size as int),
        divergence_ppm <= 1000000,
    ensures
        valid_loc(r.0, b.size as int),
        r.1 <==> b.grid@[cell_of(r.0, b.size as int)] is None,
{
    let size = b.size;
    let mut pos = start;
    let mut last = rng_below(rng, 4);
    let mut occupied = b.grid_at(pos).is_some();
    let mut i: usize = 0;
    while occupied && i < budget
        invariant
            b.wf(),
            valid_color(color, b.color_size as int),
            size == b.size,
            valid_loc(pos, size as int),
            last < 4,
            0 <= i <= budget,
            occupied <==> b.grid@[cell_of(pos, size as int)] is Some,
        decreases budget - i,
    {
        i = i + 1;
        let d: usize = if biased {
            let draw = rng_below(rng, 1000000);
            if draw < divergence_ppm as usize {
                biased_turn(b, color, pos, last)
            } else {
                last
            }
        } else {
            let delta = rng_below(rng, 3);
            no_reversal_direction(last, delta)
        };
        last = d;
        pos = step_loc(pos, d, size);
        occupied = b.grid_at(pos).is_some();
    }
    (pos, !occupied)
}

/// The number of open-pool entries the sampling fallback examines.
pub open spec fn scan_len(budget: int, len: int) -> int {
    if budget <= len {
        budget
    } else {
        len
    }
}

/// Open-pool sampling fallback: among the first `budget` entries of the
/// open pool (in its current deterministic order), the index of the first
/// entry with minimal squared toroidal distance to `pos`.
pub fn fallback_sample(b: &Board, pos: Loc, budget: usize) -> (j: usize)
    requires
        b.wf(),
        valid_loc(pos, b.size as int),
        budget >= 1,
        b.open@.len() >= 1,
    ensures
        0 <= j < b.open@.len(),
        j < scan_len(budget as int, b.open@.len() as int),
        forall|a: int|
            0 <= a < scan_len(budget as int, b.open@.len() as int) ==> tor_dist_sq(
                b.open@[j as int],
                pos,
                b.size as int,
            ) <= tor_dist_sq(#[trigger] b.open@[a], pos, b.size as int),
        forall|a: int|
            0 <= a < j ==> tor_dist_sq(#[trigger] b.open@[a], pos, b.size as int) > tor_dist_sq(
                b.open@[j as int],
                pos,
                b.size as int,
            ),
{
    let n = b.open.len();
    let limit = if budget <= n {
        budget
    } else {
        n
    };
    let mut best: usize = 0;
    let mut best_d: i64 = tor_dist_sq_exec(b.open[0], pos, b.size);
    let mut a: usize = 1;
    while a < limit
        invariant
            b.wf(),
            valid_loc(pos, b.size as int),
            n == b.open@.len(),
            limit == scan_len(budget as int, n as int),
            1 <= limit <= n,
            1 <= a <= limit,
            0 <= best < a,
            best_d == tor_dist_sq(b.open@[best as int], pos, b.size as int),
            forall|a1: int|
                0 <= a1 < a ==> best_d <= tor_dist_sq(#[trigger] b.open@[a1], pos, b.size as int),
            forall|a1: int|
                0 <= a1 < best ==> tor_dist_sq(#[trigger] b.open@[a1], pos, b.size as int)
                    > best_d,
        decreases limit - a,
    {
        let d = tor_dist_sq_exec(b.open[a], pos, b.size);
        if d < best_d {
            best = a;
            best_d = d;
        }
        a = a + 1;
    }
    best
}

/// The cell probed relative to `pos` by the spiral offset `o`.
pub open spec fn spiral_cand(pos: Loc, o: LocOffset, size: int) -> Loc {
    Loc {
        row: wrap_index(pos.row + o.dr, size) as usize,
        col: wrap_index(pos.col + o.dc, size) as usize,
    }
}

/// `l` is the last empty cell probed by the spiral scan from `pos`:
/// offset `k` reaches it, and every later offset probes an occupied cell.
pub open spec fn spiral_last_empty(
    b: Board,
    pos: Loc,
    offs: Seq<(i64, LocOffset)>,
    k: int,
    l: Loc,
) -> bool {
    &&& 0 <= k < offs.len()
    &&& l == spiral_cand(pos, offs[k].1, b.size as int)
    &&& b.grid@[cell_of(l, b.size as int)] is None
    &&& forall|m: int|
        k < m < offs.len() ==> b.grid@[#[trigger] cell_of(
            spiral_cand(pos, offs[m].1, b.size as int),
            b.size as int,
        )] is Some
}

/// Spiral-offset fallback: scans the whole magnitude-sorted spatial search
/// order and keeps the **last** empty cell encountered (a deliberate,
/// documented trait of this strategy — not the nearest hit). Succeeds
/// whenever any cell is still empty.
pub fn fallback_spiral(b: &Board, pos: Loc, offs: &Vec<(i64, LocOffset)>) -> (r: Option<Loc>)
    requires
        b.wf(),
        b.open_ok(),
        valid_loc(pos, b.size as int),
        loc_offsets_ok(offs@, b.size as int),
    ensures
        r is Some ==> valid_loc(r->Some_0, b.size as int) && exists|k: int|
            #[trigger] spiral_last_empty(*b, pos, offs@, k, r->Some_0),
        r is None ==> forall|m: int|
            0 <= m < offs@.len() ==> b.grid@[#[trigger] cell_of(
                spiral_cand(pos, offs@[m].1, b.size as int),
                b.size as int,
            )] is Some,
        b.open@.len() >= 1 ==> r is Some,
{
    let size = b.size;
    let len = offs.len();
    let mut best: Option<Loc> = None;
    let mut k: usize = 0;
    while k < len
        invariant
            b.wf(),
            b.open_ok(),
            valid_loc(pos, size as int),
            size == b.size,
            loc_offsets_ok(offs@, size as int),
            len == offs@.len(),
            0 <= k <= len,
            best is Some ==> valid_loc(best->Some_0, size as int) && exists|k1: int|
                0 <= k1 < k && best->Some_0 == spiral_cand(pos, (#[trigger] offs@[k1]).1, size as int)
                    && b.grid@[cell_of(best->Some_0, size as int)] is None && forall|m: int|
                    k1 < m < k ==> b.grid@[#[trigger] cell_of(
                        spiral_cand(pos, offs@[m].1, size as int),
                        size as int,
                    )] is Some,
            best is None ==> forall|m: int|
                0 <= m < k ==> b.grid@[#[trigger] cell_of(
                    spiral_cand(pos, offs@[m].1, size as int),
                    size as int,
                )] is Some,
        decreases len - k,
    {
        let o = offs[k].1;
        let cand = Loc { row: wrap_add(pos.row, o.dr, size), col: wrap_add(pos.col, o.dc, size) };
        proof {
            assert(cand == spiral_cand(pos, o, size as int));
        }
        if b.grid_at(cand).is_none() {
            best = Some(cand);
        }
        k = k + 1;
    }
    proof {
        if best is Some {
            let l = best->Some_0;
            let k1 = choose|k1: int|
                0 <= k1 < k && l == spiral_cand(pos, (#[trigger] offs@[k1]).1, size as int)
                    && b.grid@[cell_of(l, size as int)] is None && forall|m: int|
                    k1 < m < k ==> b.grid@[#[trigger] cell_of(
                        spiral_cand(pos, offs@[m].1, size as int),
                        size as int,
                    )] is Some;
            assert(spiral_last_empty(*b, pos, offs@, k1, l));
        }
        if b.open@.len() >= 1 && best is None {
            let m = b.open@[0];
            assert(valid_loc(m, size as int));
            assert(b.grid@[cell_of(m, size as int)] is None);
            let dr: int = if m.row >= pos.row {
                m.row - pos.row
            } else {
                m.row + size - pos.row
            };
            let dc: int = if m.col >= pos.col {
                m.col - pos.col
            } else {
                m.col + size - pos.col
            };
            let o = LocOffset { dr: dr as i32, dc: dc as i32 };
            assert(loc_offset_in_range(o, size as int));
            assert(0 <= o.dr && 0 <= o.dc);
            let k2 = choose|k2: int| 0 <= k2 < offs@.len() && (#[trigger] offs@[k2]).1 == o;
            assert(spiral_cand(pos, o, size as int) == m);
            assert(b.grid@[cell_of(spiral_cand(pos, offs@[k2].1, size as int), size as int)] is Some);
            assert(false);
        }
    }
    best
}

/// Places one non-seed color: anchor lookup at the closest placed color,
/// a budgeted walk from there, and, if the walk runs out on occupied
/// cells, the configured fallback search. Exactly one previously empty
/// cell becomes occupied, and no occupied cell is ever overwritten — once
/// a non-seed color holds a cell, it keeps it.
pub fn place_growth_color(
    b: &mut Board,
    color: ColorBase,
    offs: &Vec<(i64, ColorOffset)>,
    loc_offs: &Vec<(i64, LocOffset)>,
    budget: usize,
    biased: bool,
    divergence_ppm: u32,
    rng: &mut rand::rngs::StdRng,
)
    requires
        old(b).wf(),
        old(b).open_ok(),
        old(b).open@.len() >= 1,
        valid_color(color, old(b).color_size as int),
        color_offsets_ok(offs@, old(b).color_size as int),
        !biased ==> loc_offsets_ok(loc_offs@, old(b).size as int),
        budget >= 1,
        divergence_ppm <= 1000000,
        exists|c: ColorBase| #[trigger] old(b).map_has(c),
    ensures
        final(b).wf(),
        final(b).open_ok(),
        final(b).same_shape(*old(b)),
        final(b).open@.len() == old(b).open@.len() - 1,
        forall|ci: int|
            0 <= ci < old(b).grid@.len() && (#[trigger] old(b).grid@[ci]) is Some
                ==> final(b).grid@[ci] == old(b).grid@[ci],
        exists|l: Loc|
            {
                &&& #[trigger] valid_loc(l, old(b).size as int)
                &&& old(b).grid@[cell_of(l, old(b).size as int)] is None
                &&& final(b).grid@ == old(b).grid@.update(
                    cell_of(l, old(b).size as int),
                    Some(color),
                )
                &&& final(b).map@ == old(b).map@.update(
                    color_index(color, old(b).color_size as int),
                    Some(l),
                )
            },
{
    let anchor: Loc = match find_anchor(b, color, offs) {
        Some(l) => l,
        None => {
            proof {
                let c = choose|c: ColorBase| #[trigger] b.map_has(c);
                assert(false);
            }
            vstd::pervasive::unreached()
        },
    };
    let (pos, found) = growth_walk(b, color, anchor, budget, biased, divergence_ppm, rng);
    let target: Loc = if found {
        pos
    } else {
        if biased {
            let j = fallback_sample(b, pos, budget);
            b.open[j]
        } else {
            match fallback_spiral(b, pos, loc_offs) {
                Some(l) => l,
                None => {
                    proof {
                        assert(false);
                    }
                    vstd::pervasive::unreached()
                },
            }
        }
    };
    proof {
        lemma_cell_of_bounds(target, b.size as int);
        assert(b.grid@[cell_of(target, b.size as int)] is None);
    }
    b.fill(color, target);
    proof {
        assert(valid_loc(target, old(b).size as int));
    }
}

/// A finished bijection: every cell holds a color and every color of the
/// cube sits in some cell (exactly one, since no color repeats).
pub open spec fn complete_layout(b: Board) -> bool {
    &&& forall|ci: int| 0 <= ci < b.grid@.len() ==> (#[trigger] b.grid@[ci]) is Some
    &&& forall|c: ColorBase|
        #[trigger] valid_color(c, b.color_size as int) ==> exists|ci: int|
            0 <= ci < b.grid@.len() && #[trigger] b.grid@[ci] == Some(c)
}

/// The bijection, read off a completed board: every color of the cube
/// occupies a cell, and no color occupies two. Together with every cell
/// being occupied (part of `complete_layout`), colors and cells are in
/// one-to-one correspondence.
pub proof fn lemma_layout_bijection(b: Board, c: ColorBase)
    requires
        b.wf(),
        grid_injective(b.grid@),
        complete_layout(b),
        valid_color(c, b.color_size as int),
    ensures
        exists|ci: int| 0 <= ci < b.grid@.len() && #[trigger] b.grid@[ci] == Some(c),
        forall|c1: int, c2: int|
            0 <= c1 < b.grid@.len() && 0 <= c2 < b.grid@.len() && #[trigger] b.grid@[c1] == Some(c)
                && #[trigger] b.grid@[c2] == Some(c) ==> c1 == c2,
{
}

/// Everything the generator promises of a successful run.
pub open spec fn generated_ok(b: Board, scale: int, num_seeds: int, spacing: bool) -> bool {
    &&& b.wf()
    &&& b.scale == scale
    &&& b.seed_locs@.len() == num_seeds
    &&& grid_injective(b.grid@)
    &&& forall|ci: int|
        0 <= ci < b.grid@.len() && (#[trigger] b.grid@[ci]) is Some ==> valid_color(
            b.grid@[ci]->Some_0,
            b.color_size as int,
        )
    &&& (spacing ==> seeds_spaced(b.seed_locs@, num_seeds, b.size as int))
    &&& ((spacing || num_seeds <= 1) ==> complete_layout(b))
}

/// One full run of the growth-placement algorithm: enumerate and shuffle
/// the color cube, seed it, then place every remaining color by anchor
/// lookup, biased walk and fallback search, all driven by the one
/// generator seeded from `seed`.
///
/// The generator is consumed in a fixed documented order: the color
/// shuffle, then the open-pool shuffle, then the per-color draws.
///
/// `divergence_ppm` is the walk's bias probability in parts per million;
/// `biased` selects the similarity-biased walk with open-pool sampling
/// fallback, and otherwise the unbiased no-reversal walk with the spiral
/// fallback; `root_scale` scales the walk budget of the biased variant.
/// A run with `num_seeds == 0` is refused as unsupported, and a spacing
/// run whose seeds cannot be spread far enough fails as infeasible.
pub fn generate_layout(
    scale: usize,
    num_seeds: usize,
    seed: u64,
    divergence_ppm: u32,
    spacing: bool,
    root_scale: usize,
    biased: bool,
) -> (res: Result<Board, LayoutError>)
    requires
        2 <= scale <= 256,
        scale * scale * scale * scale * scale * scale <= usize::MAX,
        num_seeds <= scale * scale * scale * scale * scale * scale,
        divergence_ppm <= 1000000,
        1 <= root_scale <= scale * scale * scale,
    ensures
        num_seeds == 0 <==> res == Err::<Board, LayoutError>(LayoutError::NoSeeds),
        res == Err::<Board, LayoutError>(LayoutError::SpacingInfeasible) ==> spacing,
        res is Err ==> res == Err::<Board, LayoutError>(LayoutError::NoSeeds) || res == Err::<
            Board,
            LayoutError,
        >(LayoutError::SpacingInfeasible),
        !spacing && num_seeds >= 1 ==> res is Ok,
        res is Ok ==> generated_ok(res->Ok_0, scale as int, num_seeds as int, spacing),
{
    if num_seeds == 0 {
        return Err(LayoutError::NoSeeds);
    }
    let mut b = Board::new(scale);
    let size = b.size;
    let cs = b.color_size;
    let total = b.total;
    let ghost nocol = spacing || num_seeds <= 1;
    proof {
        assert(b.total == scale * scale * scale * scale * scale * scale) by (nonlinear_arith)
            requires
                b.size == scale * scale * scale,
                b.total == b.size * b.size,
        ;
    }
    let mut colors = crate::color::enumerate_colors(cs, total);
    let offs = crate::offsets::make_color_offsets(&colors, cs, total);
    let loc_offs: Vec<(i64, LocOffset)> = if biased {
        Vec::new()
    } else {
        crate::offsets::make_loc_offsets(size)
    };
    let mut rng = crate::rng::rng_from_seed(seed);
    let ghost cpre = colors@;
    crate::rng::shuffle_vec(&mut rng, &mut colors);
    proof {
        broadcast use vstd::seq_lib::group_to_multiset_ensures;

        cpre.lemma_multiset_has_no_duplicates();
        assert forall|x: ColorBase| colors@.to_multiset().contains(x) implies colors@.to_multiset().count(
            x,
        ) == 1 by {
            assert(cpre.to_multiset().contains(x));
        }
        colors@.lemma_multiset_has_no_duplicates_conv();
        assert forall|n: int| 0 <= n < colors@.len() implies valid_color(
            #[trigger] colors@[n],
            cs as int,
        ) by {
            assert(colors@.contains(colors@[n]));
            assert(colors@.to_multiset().count(colors@[n]) > 0);
            assert(cpre.contains(colors@[n]));
            let k = choose|k: int| 0 <= k < cpre.len() && cpre[k] == colors@[n];
            assert(valid_color(cpre[k], cs as int));
        }
        assert forall|c: ColorBase| #[trigger] valid_color(c, cs as int) implies exists|k: int|
            0 <= k < colors@.len() && #[trigger] colors@[k] == c by {
            lemma_color_index_bounds(c, cs as int);
            crate::color::lemma_color_at_of_index(c, cs as int);
            assert(cpre[color_index(c, cs as int)] == c);
            assert(cpre.contains(c));
            assert(colors@.to_multiset().count(c) > 0);
            assert(colors@.contains(c));
            let k = choose|k: int| 0 <= k < colors@.len() && colors@[k] == c;
            assert(colors@[k] == c);
        }
    }
    let ghost opre = b.open@;
    crate::rng::shuffle_vec(&mut rng, &mut b.open);
    proof {
        broadcast use vstd::seq_lib::group_to_multiset_ensures;

        assert forall|j: int| 0 <= j < b.open@.len() implies valid_loc(
            #[trigger] b.open@[j],
            size as int,
        ) && b.grid@[cell_of(b.open@[j], size as int)] is None by {
            assert(b.open@.contains(b.open@[j]));
            assert(b.open@.to_multiset().count(b.open@[j]) > 0);
            assert(opre.contains(b.open@[j]));
            let k = choose|k: int| 0 <= k < opre.len() && opre[k] == b.open@[j];
            assert(valid_loc(opre[k], size as int));
        }
        assert forall|l: Loc|
            valid_loc(l, size as int) && b.grid@[#[trigger] cell_of(l, size as int)] is None implies exists|
        j: int| 0 <= j < b.open@.len() && #[trigger] b.open@[j] == l by {
            let k = choose|k: int| 0 <= k < opre.len() && #[trigger] opre[k] == l;
            assert(opre.contains(l));
            assert(b.open@.to_multiset().count(l) > 0);
            assert(b.open@.contains(l));
            let j = choose|j: int| 0 <= j < b.open@.len() && b.open@[j] == l;
            assert(b.open@[j] == l);
        }
        assert(opre.no_duplicates());
        opre.lemma_multiset_has_no_duplicates();
        assert forall|x: Loc| b.open@.to_multiset().contains(x) implies b.open@.to_multiset().count(
            x,
        ) == 1 by {
            assert(opre.to_multiset().contains(x));
        }
        b.open@.lemma_multiset_has_no_duplicates_conv();
        assert forall|j1: int, j2: int|
            0 <= j1 < j2 < b.open@.len() implies (#[trigger] b.open@[j1]) != (
        #[trigger] b.open@[j2]) by {}
    }
    let sq = crate::grid::ceil_sqrt(size);
    proof {
        assert(root_scale * sq <= size * size && root_scale * sq >= 1) by (nonlinear_arith)
            requires 1 <= root_scale <= size, 1 <= sq <= size;
    }
    let budget: usize = if biased {
        root_scale * sq
    } else {
        total
    };
    match place_seeds(&mut b, &colors, num_seeds, spacing, &mut rng) {
        Err(e) => {
            return Err(e);
        },
        Ok(()) => {},
    }
    let mut i: usize = num_seeds;
    while i < total
        invariant
            b.wf(),
            b.open_ok(),
            b.scale == scale,
            size == b.size,
            cs == b.color_size,
            total == b.total,
            nocol == (spacing || num_seeds <= 1),
            1 <= num_seeds <= total,
            num_seeds <= i <= total,
            colors@.len() == total,
            forall|n: int| 0 <= n < colors@.len() ==> valid_color(#[trigger] colors@[n], cs as int),
            colors@.no_duplicates(),
            forall|c: ColorBase| #[trigger] valid_color(c, cs as int) ==> exists|k: int|
                0 <= k < colors@.len() && #[trigger] colors@[k] == c,
            color_offsets_ok(offs@, cs as int),
            !biased ==> loc_offsets_ok(loc_offs@, size as int),
            budget >= 1,
            divergence_ppm <= 1000000,
            b.seed_locs@.len() == num_seeds,
            spacing ==> seeds_spaced(b.seed_locs@, num_seeds as int, size as int),
            b.map_has(colors@[0]),
            grid_injective(b.grid@),
            contents_from(b.grid@, colors@, i as int),
            b.open@.len() >= total - i,
            nocol ==> placed_prefix(b, colors@, i as int) && b.open@.len() == total - i,
        decreases total - i,
    {
        let color = colors[i];
        let ghost bpre = b;
        place_growth_color(&mut b, color, &offs, &loc_offs, budget, biased, divergence_ppm,
            &mut rng);
        proof {
            let l = choose|l: Loc|
                {
                    &&& #[trigger] valid_loc(l, bpre.size as int)
                    &&& bpre.grid@[cell_of(l, bpre.size as int)] is None
                    &&& b.grid@ == bpre.grid@.update(cell_of(l, bpre.size as int), Some(color))
                    &&& b.map@ == bpre.map@.update(
                        color_index(color, bpre.color_size as int),
                        Some(l),
                    )
                };
            let ci = cell_of(l, size as int);
            lemma_cell_of_bounds(l, size as int);
            lemma_color_index_bounds(color, cs as int);
            // the placed color was nowhere on the grid yet
            assert forall|c1: int, c2: int|
                0 <= c1 < c2 < b.grid@.len() && (#[trigger] b.grid@[c1]) is Some implies (
            #[trigger] b.grid@[c2]) != b.grid@[c1] by {
                if c1 != ci && c2 != ci {
                } else {
                    let other: int = if c1 == ci {
                        c2
                    } else {
                        c1
                    };
                    if b.grid@[other] is Some {
                        let k = choose|k: int|
                            0 <= k < i && #[trigger] colors@[k] == bpre.grid@[other]->Some_0;
                        assert(colors@[k] != colors@[i as int]);
                    }
                }
            }
            assert forall|c1: int|
                0 <= c1 < b.grid@.len() && (#[trigger] b.grid@[c1]) is Some implies exists|k: int|
                0 <= k < i + 1 && #[trigger] colors@[k] == b.grid@[c1]->Some_0 by {
                if c1 == ci {
                    assert(colors@[i as int] == b.grid@[c1]->Some_0);
                } else {
                    let k = choose|k: int|
                        0 <= k < i && #[trigger] colors@[k] == bpre.grid@[c1]->Some_0;
                    assert(colors@[k] == b.grid@[c1]->Some_0);
                }
            }
            assert(contents_from(b.grid@, colors@, i + 1 as int));
            // the first color's record survives: ranks differ
            assert(colors@[0] != colors@[i as int]);
            lemma_color_index_distinct(colors@[0], colors@[i as int], cs as int);
            lemma_color_index_bounds(colors@[0], cs as int);
            assert(b.map@[color_index(colors@[0], cs as int)] == bpre.map@[color_index(
                colors@[0],
                cs as int,
            )]);
            if nocol {
                assert forall|k: int| 0 <= k < i + 1 implies {
                    &&& (#[trigger] b.map@[color_index(colors@[k], cs as int)]) is Some
                    &&& b.grid@[cell_of(
                        b.map@[color_index(colors@[k], cs as int)]->Some_0,
                        size as int,
                    )] == Some(colors@[k])
                } by {
                    if k < i {
                        assert(colors@[k] != colors@[i as int]);
                        lemma_color_index_distinct(colors@[k], colors@[i as int], cs as int);
                        lemma_color_index_bounds(colors@[k], cs as int);
                        assert(b.map@[color_index(colors@[k], cs as int)] == bpre.map@[color_index(
                            colors@[k],
                            cs as int,
                        )]);
                        let lk = b.map@[color_index(colors@[k], cs as int)]->Some_0;
                        lemma_cell_of_bounds(lk, size as int);
                        if cell_of(lk, size as int) == ci {
                            assert(bpre.grid@[ci] == Some(colors@[k]));
                            assert(false);
                        }
                    } else {
                        assert(b.map@[color_index(colors@[i as int], cs as int)] == Some(l));
                        assert(b.grid@[ci] == Some(colors@[i as int]));
                    }
                }
                assert(placed_prefix(b, colors@, i + 1 as int));
            }
        }
        i = i + 1;
    }
    proof {
        if nocol {
            assert forall|ci: int| 0 <= ci < b.grid@.len() implies (#[trigger] b.grid@[ci]) is Some by {
                if b.grid@[ci] is None {
                    crate::grid::lemma_loc_of_cell(ci, size as int);
                    let lc = crate::grid::loc_of_cell(ci, size as int);
                    assert(b.grid@[cell_of(lc, size as int)] is None);
                    let j = choose|j: int| 0 <= j < b.open@.len() && #[trigger] b.open@[j] == lc;
                    assert(false);
                }
            }
            assert forall|c: ColorBase|
                #[trigger] valid_color(c, b.color_size as int) implies exists|ci: int|
                0 <= ci < b.grid@.len() && #[trigger] b.grid@[ci] == Some(c) by {
                let k = choose|k: int| 0 <= k < colors@.len() && #[trigger] colors@[k] == c;
                lemma_color_index_bounds(colors@[k], cs as int);
                assert(b.map@[color_index(colors@[k], cs as int)] is Some);
                let lk = b.map@[color_index(colors@[k], cs as int)]->Some_0;
                lemma_cell_of_bounds(lk, size as int);
                assert(b.grid@[cell_of(lk, size as int)] == Some(c));
            }
            assert(complete_layout(b));
        }
    }
    Ok(b)
}

/// The whole operation in one call: generates a layout and renders it to
/// rows of 8-bit pixels, under the same configuration contract as
/// `generate_layout`.
pub fn generate_image(
    scale: usize,
    num_seeds: usize,
    seed: u64,
    divergence_ppm: u32,
    spacing: bool,
    root_scale: usize,
    biased: bool,
) -> (res: Result<Vec<Vec<crate::color::Rgb>>, LayoutError>)
    requires
        2 <= scale <= 256,
        scale * scale * scale * scale * scale * scale <= usize::MAX,
        num_seeds <= scale * scale * scale * scale * scale * scale,
        divergence_ppm <= 1000000,
        1 <= root_scale <= scale * scale * scale,
    ensures
        num_seeds == 0 <==> res is Err && res->Err_0 == LayoutError::NoSeeds,
        res is Err ==> res->Err_0 == LayoutError::NoSeeds || (res->Err_0
            == LayoutError::SpacingInfeasible && spacing),
        !spacing && num_seeds >= 1 ==> res is Ok,
        res is Ok ==> exists|b: Board|
            #[trigger] generated_ok(b, scale as int, num_seeds as int, spacing)
                && crate::render::image_matches(b, res->Ok_0@),
{
    match generate_layout(scale, num_seeds, seed, divergence_ppm, spacing, root_scale, biased) {
        Ok(b) => {
            let img = crate::render::render_grid(&b);
            proof {
                assert(generated_ok(b, scale as int, num_seeds as int, spacing)
                    && crate::render::image_matches(b, img@));
            }
            Ok(img)
        },
        Err(e) => Err(e),
    }
}

} // verus!
