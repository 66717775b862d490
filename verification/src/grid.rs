use vstd::prelude::*;

verus! {

/// A grid cell address: row and column on the square torus.
#[derive(Clone, Copy, PartialEq, Eq, Structural, Debug)]
pub struct Loc {
    pub row: usize,
    pub col: usize,
}

/// Whether `l` addresses a cell of a `size` x `size` grid.
pub open spec fn valid_loc(l: Loc, size: int) -> bool {
    l.row < size && l.col < size
}

/// The flat index of a cell in row-major order.
pub open spec fn cell_of(l: Loc, size: int) -> int {
    l.row * size + l.col
}

/// Flat indices of valid locations fall inside the grid vector.
pub proof fn lemma_cell_of_bounds(l: Loc, size: int)
    requires
        1 <= size,
        valid_loc(l, size),
    ensures
        0 <= cell_of(l, size) < size * size,
{
    assert(l.row * size + l.col < size * size) by (nonlinear_arith)
        requires 1 <= size, l.row < size, l.col < size;
    assert(l.row * size + l.col >= 0) by (nonlinear_arith)
        requires size >= 1, l.row >= 0, l.col >= 0;
}

/// Distinct valid locations have distinct flat indices.
pub proof fn lemma_cell_of_injective(l1: Loc, l2: Loc, size: int)
    requires
        1 <= size,
        valid_loc(l1, size),
        valid_loc(l2, size),
        cell_of(l1, size) == cell_of(l2, size),
    ensures
        l1 == l2,
{
    assert(l1.row == l2.row && l1.col == l2.col) by (nonlinear_arith)
        requires
            1 <= size,
            l1.row < size,
            l1.col < size,
            l2.row < size,
            l2.col < size,
            l1.row * size + l1.col == l2.row * size + l2.col,
    ;
}

/// Computes the flat index of a valid location.
pub fn cell_index(l: Loc, size: usize) -> (n: usize)
    requires
        1 <= size,
        size * size <= usize::MAX,
        valid_loc(l, size as int),
    ensures
        n == cell_of(l, size as int),
{
    proof {
        lemma_cell_of_bounds(l, size as int);
        assert(l.row * size <= size * size) by (nonlinear_arith)
            requires l.row < size, size >= 1;
    }
    l.row * size + l.col
}

/// The location whose flat index is `ci`.
pub open spec fn loc_of_cell(ci: int, size: int) -> Loc {
    Loc { row: (ci / size) as usize, col: (ci % size) as usize }
}

/// Every flat index inside the grid is the index of a valid location.
pub proof fn lemma_loc_of_cell(ci: int, size: int)
    requires
        1 <= size <= 16777216,
        0 <= ci < size * size,
    ensures
        valid_loc(loc_of_cell(ci, size), size),
        cell_of(loc_of_cell(ci, size), size) == ci,
{
    vstd::arithmetic::div_mod::lemma_mod_division_less_than_divisor(ci, size);
    vstd::arithmetic::div_mod::lemma_multiply_divide_lt(ci, size, size);
    vstd::arithmetic::div_mod::lemma_fundamental_div_mod(ci, size);
    assert(size * (ci / size) == (ci / size) * size) by (nonlinear_arith);
}

/// Toroidal distance along one axis: the shorter way round between two
/// coordinates, wrapping at `size`.
pub open spec fn axis_dist(a: int, b: int, size: int) -> int {
    let d = if a >= b {
        a - b
    } else {
        b - a
    };
    if d <= size - d {
        d
    } else {
        size - d
    }
}

/// Squared toroidal (wrap-around Euclidean) distance between two cells.
pub open spec fn tor_dist_sq(l1: Loc, l2: Loc, size: int) -> int {
    axis_dist(l1.row as int, l2.row as int, size) * axis_dist(l1.row as int, l2.row as int, size)
        + axis_dist(l1.col as int, l2.col as int, size) * axis_dist(
        l1.col as int,
        l2.col as int,
        size,
    )
}

/// The squared toroidal distance is non-negative, bounded by the grid, and
/// zero only between a cell and itself.
pub proof fn lemma_tor_dist_sq_bounds(l1: Loc, l2: Loc, size: int)
    requires
        1 <= size <= 16777216,
        valid_loc(l1, size),
        valid_loc(l2, size),
    ensures
        0 <= tor_dist_sq(l1, l2, size) <= 2 * size * size,
        tor_dist_sq(l1, l2, size) <= 2 * 16777216 * 16777216,
        tor_dist_sq(l1, l2, size) == 0 ==> l1 == l2,
{
    let ar = axis_dist(l1.row as int, l2.row as int, size);
    let ac = axis_dist(l1.col as int, l2.col as int, size);
    assert(0 <= ar <= size && 0 <= ac <= size);
    assert(ar == 0 ==> l1.row == l2.row);
    assert(ac == 0 ==> l1.col == l2.col);
    assert(0 <= ar * ar <= size * size && 0 <= ac * ac <= size * size && ar * ar + ac * ac <= 2
        * size * size && ar * ar + ac * ac <= 2 * 16777216 * 16777216 && (ar * ar == 0 ==> ar == 0)
        && (ac * ac == 0 ==> ac == 0)) by (nonlinear_arith)
        requires 0 <= ar <= size, 0 <= ac <= size, size <= 16777216;
}

/// Computes the squared toroidal distance between two valid cells.
pub fn tor_dist_sq_exec(l1: Loc, l2: Loc, size: usize) -> (d: i64)
    requires
        1 <= size <= 16777216,
        valid_loc(l1, size as int),
        valid_loc(l2, size as int),
    ensures
        d == tor_dist_sq(l1, l2, size as int),
{
    let dr_direct: i64 = if l1.row >= l2.row {
        (l1.row - l2.row) as i64
    } else {
        (l2.row - l1.row) as i64
    };
    let dr: i64 = if dr_direct <= size as i64 - dr_direct {
        dr_direct
    } else {
        size as i64 - dr_direct
    };
    let dc_direct: i64 = if l1.col >= l2.col {
        (l1.col - l2.col) as i64
    } else {
        (l2.col - l1.col) as i64
    };
    let dc: i64 = if dc_direct <= size as i64 - dc_direct {
        dc_direct
    } else {
        size as i64 - dc_direct
    };
    proof {
        assert(dr * dr <= 16777216 * 16777216 && dc * dc <= 16777216 * 16777216 && dr * dr + dc
            * dc <= 2 * 16777216 * 16777216) by (nonlinear_arith)
            requires 0 <= dr <= 16777216, 0 <= dc <= 16777216;
    }
    dr * dr + dc * dc
}

/// A coordinate just off either edge of `[0, size)` pulled back onto the
/// torus; matches stepping or offsetting and then wrapping once.
pub open spec fn wrap_index(x: int, size: int) -> int {
    if x < 0 {
        x + size
    } else if x >= size {
        x - size
    } else {
        x
    }
}

/// Adds a signed displacement smaller than `size` to a coordinate and wraps
/// the result back onto the torus.
pub fn wrap_add(x: usize, d: i32, size: usize) -> (r: usize)
    requires
        1 <= size <= 16777216,
        x < size,
        -(size as int) < d as int,
        (d as int) < size as int,
    ensures
        r as int == wrap_index(x as int + d as int, size as int),
        r < size,
{
    let xi: i64 = x as i64 + d as i64;
    if xi < 0 {
        (xi + size as i64) as usize
    } else if xi >= size as i64 {
        (xi - size as i64) as usize
    } else {
        xi as usize
    }
}

/// The least integer whose square reaches `n` (so, the rounded-up square
/// root); used to size the growth-walk budget.
pub fn ceil_sqrt(n: usize) -> (r: usize)
    requires
        n <= 16777216,
    ensures
        n <= r * r,
        r >= 1 ==> (r - 1) * (r - 1) < n,
        r <= n,
{
    let mut r: usize = 0;
    loop
        invariant
            n <= 16777216,
            r >= 1 ==> (r - 1) * (r - 1) < n,
            r <= n,
        ensures
            n <= r * r,
            r >= 1 ==> (r - 1) * (r - 1) < n,
            r <= n,
        decreases n - r,
    {
        proof {
            assert(r * r <= 16777216 * 16777216) by (nonlinear_arith)
                requires 0 <= r <= 16777216;
        }
        let rr: u64 = (r as u64) * (r as u64);
        if rr >= n as u64 {
            break ;
        }
        proof {
            assert(r < n) by (nonlinear_arith)
                requires (r as int) * (r as int) < n as int, 0 <= r;
        }
        r = r + 1;
    }
    r
}

} // verus!
