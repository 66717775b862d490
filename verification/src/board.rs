use vstd::prelude::*;
use crate::color::{color_index, color_index_exec, valid_color, ColorBase};
use crate::color::{lemma_color_index_bounds};
use crate::grid::{cell_index, cell_of, lemma_cell_of_bounds, lemma_cell_of_injective, valid_loc, Loc};

verus! {

/// The whole mutable state of one run: the toroidal grid, the lookup from
/// placed colors to their cells, the pool of still-empty cells, and the
/// cells chosen during seeding.
pub struct Board {
    pub scale: usize,
    pub color_size: usize,
    pub size: usize,
    pub total: usize,
    pub grid: Vec<Option<ColorBase>>,
    pub map: Vec<Option<Loc>>,
    pub open: Vec<Loc>,
    pub seed_locs: Vec<Loc>,
}

/// No color occupies two different cells.
pub open spec fn grid_injective(g: Seq<Option<ColorBase>>) -> bool {
    forall|i: int, j: int|
        0 <= i < j < g.len() && (#[trigger] g[i]) is Some ==> (#[trigger] g[j]) != g[i]
}

/// Every occupied cell holds one of the first `upto` colors of the
/// processing order.
pub open spec fn contents_from(g: Seq<Option<ColorBase>>, colors: Seq<ColorBase>, upto: int) -> bool {
    forall|i: int|
        0 <= i < g.len() && (#[trigger] g[i]) is Some ==> exists|k: int|
            0 <= k < upto && #[trigger] colors[k] == g[i]->Some_0
}

/// The first `upto` colors of the processing order are all placed: the
/// lookup records a cell for each, and that cell holds the color.
pub open spec fn placed_prefix(b: Board, colors: Seq<ColorBase>, upto: int) -> bool {
    forall|k: int|
        0 <= k < upto ==> {
            &&& (#[trigger] b.map@[color_index(colors[k], b.color_size as int)]) is Some
            &&& b.grid@[cell_of(
                b.map@[color_index(colors[k], b.color_size as int)]->Some_0,
                b.size as int,
            )] == Some(colors[k])
        }
}

impl Board {
    /// The derived size constants agree with `scale`.
    pub open spec fn dims_ok(self) -> bool {
        &&& 2 <= self.scale <= 256
        &&& self.color_size == self.scale * self.scale
        &&& 4 <= self.color_size <= 65536
        &&& self.size == self.scale * self.scale * self.scale
        &&& 8 <= self.size <= 16777216
        &&& self.total == self.size * self.size
        &&& self.total == self.color_size * self.color_size * self.color_size
    }

    /// Structural well-formedness: vector lengths match the dimensions, and
    /// everything stored is in range.
    pub open spec fn wf(self) -> bool {
        &&& self.dims_ok()
        &&& self.grid@.len() == self.total
        &&& self.map@.len() == self.total
        &&& forall|i: int|
            0 <= i < self.total && (#[trigger] self.grid@[i]) is Some ==> valid_color(
                self.grid@[i]->Some_0,
                self.color_size as int,
            )
        &&& forall|k: int|
            0 <= k < self.total && (#[trigger] self.map@[k]) is Some ==> valid_loc(
                self.map@[k]->Some_0,
                self.size as int,
            )
        &&& forall|j: int|
            0 <= j < self.open@.len() ==> valid_loc(#[trigger] self.open@[j], self.size as int)
        &&& forall|j: int|
            0 <= j < self.seed_locs@.len() ==> valid_loc(
                #[trigger] self.seed_locs@[j],
                self.size as int,
            )
    }

    /// The open pool is exactly the set of empty cells, each listed once.
    pub open spec fn open_ok(self) -> bool {
        &&& forall|j: int|
            0 <= j < self.open@.len() ==> (#[trigger] self.grid@[cell_of(
                self.open@[j],
                self.size as int,
            )]) is None
        &&& forall|l: Loc|
            valid_loc(l, self.size as int) && self.grid@[#[trigger] cell_of(l, self.size as int)] is None
                ==> exists|j: int| 0 <= j < self.open@.len() && #[trigger] self.open@[j] == l
        &&& forall|j1: int, j2: int|
            0 <= j1 < j2 < self.open@.len() ==> (#[trigger] self.open@[j1]) != (
            #[trigger] self.open@[j2])
    }

    /// Whether the color `c` has already been placed somewhere.
    pub open spec fn map_has(self, c: ColorBase) -> bool {
        valid_color(c, self.color_size as int) && self.map@[color_index(
            c,
            self.color_size as int,
        )] is Some
    }

    /// The dimensions and the seed record are unchanged from `other`.
    pub open spec fn same_shape(self, other: Board) -> bool {
        &&& self.scale == other.scale
        &&& self.color_size == other.color_size
        &&& self.size == other.size
        &&& self.total == other.total
        &&& self.seed_locs@ == other.seed_locs@
    }

    /// Creates the empty state for one run: an all-empty grid, no color
    /// placed yet, and every cell in the open pool (in row-major order,
    /// before the run's seeded shuffle).
    pub fn new(scale: usize) -> (b: Board)
        requires
            2 <= scale <= 256,
            scale * scale * scale * scale * scale * scale <= usize::MAX,
        ensures
            b.wf(),
            b.open_ok(),
            b.scale == scale,
            b.seed_locs@.len() == 0,
            forall|i: int| 0 <= i < b.total ==> (#[trigger] b.grid@[i]) is None,
            forall|k: int| 0 <= k < b.total ==> (#[trigger] b.map@[k]) is None,
            b.open@.len() == b.total,
    {
        proof {
            assert(4 <= scale * scale <= 65536 && 8 <= scale * scale * scale <= 16777216 && scale
                * scale <= scale * scale * scale * scale * scale * scale && scale * scale * scale
                <= scale * scale * scale * scale * scale * scale && (scale * scale * scale) * (
            scale * scale * scale) == scale * scale * scale * scale * scale * scale && (scale
                * scale) * ((scale * scale) * (scale * scale)) == scale * scale * scale * scale
                * scale * scale) by (nonlinear_arith)
                requires 2 <= scale <= 256;
        }
        let cs: usize = scale * scale;
        let size: usize = cs * scale;
        let total: usize = size * size;
        proof {
            assert(total == cs * (cs * cs)) by (nonlinear_arith)
                requires size == cs * scale, cs == scale * scale, total == size * size;
            assert(cs * (cs * cs) == cs * cs * cs) by (nonlinear_arith);
        }
        let mut grid: Vec<Option<ColorBase>> = Vec::new();
        let mut i: usize = 0;
        while i < total
            invariant
                0 <= i <= total,
                grid@.len() == i,
                forall|a: int| 0 <= a < i ==> (#[trigger] grid@[a]) is None,
            decreases total - i,
        {
            grid.push(None);
            i = i + 1;
        }
        let mut map: Vec<Option<Loc>> = Vec::new();
        let mut k: usize = 0;
        while k < total
            invariant
                0 <= k <= total,
                map@.len() == k,
                forall|a: int| 0 <= a < k ==> (#[trigger] map@[a]) is None,
            decreases total - k,
        {
            map.push(None);
            k = k + 1;
        }
        let mut open: Vec<Loc> = Vec::new();
        let mut r: usize = 0;
        while r < size
            invariant
                0 <= r <= size,
                size * size == total,
                total <= usize::MAX,
                open@.len() == r * size,
                forall|a: int|
                    0 <= a < open@.len() ==> valid_loc(#[trigger] open@[a], size as int)
                        && cell_of(open@[a], size as int) == a,
            decreases size - r,
        {
            let mut c: usize = 0;
            proof {
                assert(r * size + size <= size * size) by (nonlinear_arith)
                    requires r < size, size >= 1;
            }
            while c < size
                invariant
                    0 <= c <= size,
                    0 <= r < size,
                    size * size == total,
                    total <= usize::MAX,
                    r * size + size <= total,
                    open@.len() == r * size + c,
                    forall|a: int|
                        0 <= a < open@.len() ==> valid_loc(#[trigger] open@[a], size as int)
                            && cell_of(open@[a], size as int) == a,
                decreases size - c,
            {
                open.push(Loc { row: r, col: c });
                c = c + 1;
            }
            proof {
                assert((r as int) * (size as int) + (size as int) == ((r as int) + 1) * (
                size as int)) by (nonlinear_arith);
            }
            r = r + 1;
        }
        let b = Board { scale, color_size: cs, size, total, grid, map, open, seed_locs: Vec::new() };
        proof {
            assert(b.wf());
            assert forall|l: Loc|
                valid_loc(l, b.size as int) && b.grid@[#[trigger] cell_of(
                    l,
                    b.size as int,
                )] is None implies exists|j: int|
                0 <= j < b.open@.len() && #[trigger] b.open@[j] == l by {
                lemma_cell_of_bounds(l, b.size as int);
                let j = cell_of(l, b.size as int);
                lemma_cell_of_injective(b.open@[j], l, b.size as int);
                assert(b.open@[j] == l);
            }
            assert forall|j1: int, j2: int|
                0 <= j1 < j2 < b.open@.len() implies (#[trigger] b.open@[j1]) != (
            #[trigger] b.open@[j2]) by {
                assert(cell_of(b.open@[j1], b.size as int) != cell_of(b.open@[j2], b.size as int));
            }
        }
        b
    }

    /// Reads the grid cell addressed by `l`.
    pub fn grid_at(&self, l: Loc) -> (c: Option<ColorBase>)
        requires
            self.wf(),
            valid_loc(l, self.size as int),
        ensures
            c == self.grid@[cell_of(l, self.size as int)],
    {
        proof {
            lemma_cell_of_bounds(l, self.size as int);
        }
        let idx = cell_index(l, self.size);
        self.grid[idx]
    }

    /// Looks up the recorded cell of a color, if it was placed.
    pub fn map_at(&self, c: ColorBase) -> (l: Option<Loc>)
        requires
            self.wf(),
            valid_color(c, self.color_size as int),
        ensures
            l == self.map@[color_index(c, self.color_size as int)],
    {
        let rank = color_index_exec(c, self.color_size, self.total);
        self.map[rank]
    }

    /// Places `color` at the cell `l`: writes the grid, records the color's
    /// cell, and, when the cell was empty, retires it from the open pool.
    /// An occupied cell is silently overwritten; only seeding ever does that.
    pub fn fill(&mut self, color: ColorBase, l: Loc)
        requires
            old(self).wf(),
            old(self).open_ok(),
            valid_color(color, old(self).color_size as int),
            valid_loc(l, old(self).size as int),
        ensures
            final(self).wf(),
            final(self).open_ok(),
            final(self).same_shape(*old(self)),
            final(self).grid@ == old(self).grid@.update(
                cell_of(l, old(self).size as int),
                Some(color),
            ),
            final(self).map@ == old(self).map@.update(
                color_index(color, old(self).color_size as int),
                Some(l),
            ),
            old(self).grid@[cell_of(l, old(self).size as int)] is None ==> final(self).open@.len()
                == old(self).open@.len() - 1,
            old(self).grid@[cell_of(l, old(self).size as int)] is Some ==> final(self).open@
                == old(self).open@,
    {
        proof {
            lemma_cell_of_bounds(l, self.size as int);
            lemma_color_index_bounds(color, self.color_size as int);
        }
        let ghost size = self.size as int;
        let ghost s0 = self.open@;
        let ghost g0 = self.grid@;
        let cell = cell_index(l, self.size);
        let was_empty = self.grid[cell].is_none();
        self.grid.set(cell, Some(color));
        let rank = color_index_exec(color, self.color_size, self.total);
        self.map.set(rank, Some(l));
        proof {
            // Any other open entry addresses a different cell, and the grid
            // there is untouched.
            assert forall|m: Loc|
                valid_loc(m, size) && m != l implies #[trigger] cell_of(m, size) != cell_of(
                l,
                size,
            ) by {
                if cell_of(m, size) == cell_of(l, size) {
                    lemma_cell_of_injective(m, l, size);
                }
            }
        }
        if was_empty {
            let n = self.open.len();
            let mut j: usize = 0;
            loop
                invariant
                    self.open@ == s0,
                    n == s0.len(),
                    g0[cell_of(l, size)] is None,
                    exists|j0: int| 0 <= j0 < n && #[trigger] s0[j0] == l,
                    0 <= j < n,
                    forall|j1: int| 0 <= j1 < j ==> #[trigger] s0[j1] != l,
                ensures
                    self.open@ == s0,
                    0 <= j < n,
                    s0[j as int] == l,
                decreases n - j,
            {
                if self.open[j] == l {
                    break ;
                }
                proof {
                    let j0 = choose|j0: int| 0 <= j0 < n && #[trigger] s0[j0] == l;
                    assert(j0 > j);
                }
                j = j + 1;
            }
            let last = self.open[n - 1];
            self.open.set(j, last);
            self.open.pop();
            proof {
                let sf = self.open@;
                let gf = self.grid@;
                assert(sf.len() == n - 1);
                assert(forall|a: int|
                    0 <= a < n - 1 ==> #[trigger] sf[a] == (if a == j as int {
                        s0[n - 1]
                    } else {
                        s0[a]
                    }));
                // soundness: remaining entries still address empty cells
                assert forall|a: int|
                    0 <= a < sf.len() implies (#[trigger] gf[cell_of(sf[a], size)]) is None by {
                    let b: int = if a == j as int {
                        n - 1
                    } else {
                        a
                    };
                    assert(sf[a] == s0[b]);
                    assert(b != j as int);
                    assert(s0[b] != l);
                    lemma_cell_of_bounds(s0[b], size);
                    assert(cell_of(s0[b], size) != cell_of(l, size));
                }
                // completeness: every still-empty cell keeps a witness
                assert forall|m: Loc|
                    valid_loc(m, size) && gf[#[trigger] cell_of(m, size)] is None implies exists|
                a: int| 0 <= a < sf.len() && #[trigger] sf[a] == m by {
                    lemma_cell_of_bounds(m, size);
                    assert(cell_of(m, size) != cell_of(l, size));
                    assert(m != l);
                    assert(g0[cell_of(m, size)] is None);
                    let b = choose|b: int| 0 <= b < s0.len() && #[trigger] s0[b] == m;
                    assert(b != j as int);
                    if b < n - 1 {
                        assert(sf[b] == m);
                    } else {
                        assert(j < n - 1);
                        assert(sf[j as int] == m);
                    }
                }
                // no duplicates survive the swap-removal
                assert forall|a1: int, a2: int|
                    0 <= a1 < a2 < sf.len() implies (#[trigger] sf[a1]) != (#[trigger] sf[a2]) by {
                    let b1: int = if a1 == j as int {
                        n - 1
                    } else {
                        a1
                    };
                    let b2: int = if a2 == j as int {
                        n - 1
                    } else {
                        a2
                    };
                    assert(sf[a1] == s0[b1] && sf[a2] == s0[b2]);
                    assert(b1 != b2);
                }
            }
        } else {
            proof {
                let sf = self.open@;
                let gf = self.grid@;
                assert forall|a: int|
                    0 <= a < sf.len() implies (#[trigger] gf[cell_of(sf[a], size)]) is None by {
                    lemma_cell_of_bounds(s0[a], size);
                    assert(g0[cell_of(s0[a], size)] is None);
                    assert(s0[a] != l);
                    assert(cell_of(s0[a], size) != cell_of(l, size));
                }
                assert forall|m: Loc|
                    valid_loc(m, size) && gf[#[trigger] cell_of(m, size)] is None implies exists|
                a: int| 0 <= a < sf.len() && #[trigger] sf[a] == m by {
                    lemma_cell_of_bounds(m, size);
                    assert(cell_of(m, size) != cell_of(l, size));
                    assert(g0[cell_of(m, size)] is None);
                }
            }
        }
    }
}

} // verus!
