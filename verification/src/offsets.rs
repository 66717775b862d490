use vstd::prelude::*;
use crate::color::{color_at, color_index, valid_color, ColorBase};
use crate::color::{lemma_color_at_of_index, lemma_color_index_bounds};
use crate::sort::{sort_by_key, sorted_by_key};

verus! {

/// A signed displacement in color space, one entry of the neighbor search
/// order: candidates for "a color near `c`" are probed as `c + offset`.
#[derive(Clone, Copy, PartialEq, Eq, Structural, Debug)]
pub struct ColorOffset {
    pub dr: i32,
    pub dg: i32,
    pub db: i32,
}

/// Squared magnitude of a color offset.
pub open spec fn offset_mag(o: ColorOffset) -> int {
    o.dr * o.dr + o.dg * o.dg + o.db * o.db
}

/// Every component of `o` is strictly smaller than `cs` in absolute value.
pub open spec fn offset_in_range(o: ColorOffset, cs: int) -> bool {
    -cs < o.dr < cs && -cs < o.dg < cs && -cs < o.db < cs
}

/// Whether `o` is one of the eight sign-reflections of the color `c`.
pub open spec fn abs_match(o: ColorOffset, c: ColorBase) -> bool {
    &&& (o.dr as int == c.r as int || o.dr as int == -(c.r as int))
    &&& (o.dg as int == c.g as int || o.dg as int == -(c.g as int))
    &&& (o.db as int == c.b as int || o.db as int == -(c.b as int))
}

/// The well-formedness of a finished color offset table: each entry keyed by
/// its squared magnitude, all components below `cs`, ascending keys, and
/// every displacement in range present somewhere.
pub open spec fn color_offsets_ok(offs: Seq<(i64, ColorOffset)>, cs: int) -> bool {
    &&& sorted_by_key(offs)
    &&& forall|j: int|
        0 <= j < offs.len() ==> (#[trigger] offs[j]).0 == offset_mag(offs[j].1)
            && offset_in_range(offs[j].1, cs)
    &&& forall|o: ColorOffset|
        offset_in_range(o, cs) ==> exists|j: int| 0 <= j < offs.len() && (#[trigger] offs[j]).1 == o
}

/// Builds the color neighbor search order: the eight sign-reflections of
/// every color of the cube, keyed and sorted ascending by squared magnitude.
pub fn make_color_offsets(colors: &Vec<ColorBase>, cs: usize, total: usize) -> (offs: Vec<
    (i64, ColorOffset),
>)
    requires
        2 <= cs <= 65536,
        total == cs * cs * cs,
        colors@.len() == total,
        forall|n: int| 0 <= n < total ==> #[trigger] colors@[n] == color_at(n, cs as int),
    ensures
        offs@.len() == 8 * total,
        color_offsets_ok(offs@, cs as int),
{
    let mut offs: Vec<(i64, ColorOffset)> = Vec::new();
    let mut n: usize = 0;
    while n < total
        invariant
            2 <= cs <= 65536,
            total == cs * cs * cs,
            colors@.len() == total,
            forall|k: int| 0 <= k < total ==> #[trigger] colors@[k] == color_at(k, cs as int),
            0 <= n <= total,
            offs@.len() == 8 * n,
            forall|j: int|
                0 <= j < offs@.len() ==> (#[trigger] offs@[j]).0 == offset_mag(offs@[j].1)
                    && offset_in_range(offs@[j].1, cs as int),
            forall|k: int, o: ColorOffset|
                0 <= k < n && #[trigger] abs_match(o, colors@[k]) ==> exists|j: int|
                    0 <= j < offs@.len() && (#[trigger] offs@[j]).1 == o,
        decreases total - n,
    {
        let c = colors[n];
        proof {
            crate::color::lemma_color_at_valid(n as int, cs as int);
        }
        let pr: i32 = c.r as i32;
        let pg: i32 = c.g as i32;
        let pb: i32 = c.b as i32;
        let nr: i32 = -pr;
        let ng: i32 = -pg;
        let nb: i32 = -pb;
        proof {
            assert(pr as i64 * pr as i64 + pg as i64 * pg as i64 + pb as i64 * pb as i64 <= 3
                * 65536 * 65536) by (nonlinear_arith)
                requires 0 <= pr <= 65536, 0 <= pg <= 65536, 0 <= pb <= 65536;
        }
        let key: i64 = pr as i64 * pr as i64 + pg as i64 * pg as i64 + pb as i64 * pb as i64;
        let ghost base = offs@.len() as int;
        let ghost before = offs@;
        offs.push((key, ColorOffset { dr: pr, dg: pg, db: pb }));
        offs.push((key, ColorOffset { dr: pr, dg: pg, db: nb }));
        offs.push((key, ColorOffset { dr: pr, dg: ng, db: pb }));
        offs.push((key, ColorOffset { dr: pr, dg: ng, db: nb }));
        offs.push((key, ColorOffset { dr: nr, dg: pg, db: pb }));
        offs.push((key, ColorOffset { dr: nr, dg: pg, db: nb }));
        offs.push((key, ColorOffset { dr: nr, dg: ng, db: pb }));
        offs.push((key, ColorOffset { dr: nr, dg: ng, db: nb }));
        proof {
            assert((nr as int) * (nr as int) == (pr as int) * (pr as int) && (ng as int) * (
            ng as int) == (pg as int) * (pg as int) && (nb as int) * (nb as int) == (pb as int) * (
            pb as int)) by (nonlinear_arith)
                requires
                    nr as int == -(pr as int),
                    ng as int == -(pg as int),
                    nb as int == -(pb as int),
            ;
            assert(forall|j: int| 0 <= j < base ==> offs@[j] == before[j]);
            assert(offs@[base + 0] == (key, ColorOffset { dr: pr, dg: pg, db: pb }));
            assert(offs@[base + 1] == (key, ColorOffset { dr: pr, dg: pg, db: nb }));
            assert(offs@[base + 2] == (key, ColorOffset { dr: pr, dg: ng, db: pb }));
            assert(offs@[base + 3] == (key, ColorOffset { dr: pr, dg: ng, db: nb }));
            assert(offs@[base + 4] == (key, ColorOffset { dr: nr, dg: pg, db: pb }));
            assert(offs@[base + 5] == (key, ColorOffset { dr: nr, dg: pg, db: nb }));
            assert(offs@[base + 6] == (key, ColorOffset { dr: nr, dg: ng, db: pb }));
            assert(offs@[base + 7] == (key, ColorOffset { dr: nr, dg: ng, db: nb }));
            assert forall|j: int|
                base <= j < offs@.len() implies (#[trigger] offs@[j]).0 == offset_mag(offs@[j].1)
                && offset_in_range(offs@[j].1, cs as int) by {
                assert(base <= j < base + 8);
            }
            assert forall|o: ColorOffset| abs_match(o, c) implies exists|j: int|
                0 <= j < offs@.len() && (#[trigger] offs@[j]).1 == o by {
                let sr: int = if o.dr as int == c.r as int { 0int } else { 4int };
                let sg: int = if o.dg as int == c.g as int { 0int } else { 2int };
                let sb: int = if o.db as int == c.b as int { 0int } else { 1int };
                let j = base + sr + sg + sb;
                assert(offs@[j].1 == o);
            }
        }
        n = n + 1;
    }
    let ghost pre = offs@;
    sort_by_key(&mut offs);
    proof {
        broadcast use vstd::seq_lib::group_to_multiset_ensures;

        assert forall|j: int|
            0 <= j < offs@.len() implies (#[trigger] offs@[j]).0 == offset_mag(offs@[j].1)
            && offset_in_range(offs@[j].1, cs as int) by {
            assert(offs@.contains(offs@[j]));
            assert(offs@.to_multiset().count(offs@[j]) > 0);
            assert(pre.contains(offs@[j]));
        }
        assert forall|o: ColorOffset| offset_in_range(o, cs as int) implies exists|j: int|
            0 <= j < offs@.len() && (#[trigger] offs@[j]).1 == o by {
            let ar: u16 = if o.dr as int >= 0 { o.dr as u16 } else { (-(o.dr as int)) as u16 };
            let ag: u16 = if o.dg as int >= 0 { o.dg as u16 } else { (-(o.dg as int)) as u16 };
            let ab: u16 = if o.db as int >= 0 { o.db as u16 } else { (-(o.db as int)) as u16 };
            let c = ColorBase { r: ar, g: ag, b: ab };
            assert(valid_color(c, cs as int));
            lemma_color_index_bounds(c, cs as int);
            lemma_color_at_of_index(c, cs as int);
            let k = color_index(c, cs as int);
            assert(abs_match(o, c));
            assert(abs_match(o, colors@[k]));
            let j0 = choose|j0: int| 0 <= j0 < pre.len() && (#[trigger] pre[j0]).1 == o;
            assert(pre.contains(pre[j0]));
            assert(pre.to_multiset().count(pre[j0]) > 0);
            assert(offs@.contains(pre[j0]));
            let j = choose|j: int| 0 <= j < offs@.len() && #[trigger] offs@[j] == pre[j0];
            assert(offs@[j].1 == o);
        }
    }
    offs
}

/// A signed displacement on the toroidal grid, one entry of the spatial
/// search order used by the spiral fallback.
#[derive(Clone, Copy, PartialEq, Eq, Structural, Debug)]
pub struct LocOffset {
    pub dr: i32,
    pub dc: i32,
}

/// Squared magnitude of a location offset.
pub open spec fn loc_offset_mag(o: LocOffset) -> int {
    o.dr * o.dr + o.dc * o.dc
}

/// Every component of `o` is strictly smaller than `size` in absolute value.
pub open spec fn loc_offset_in_range(o: LocOffset, size: int) -> bool {
    -size < o.dr < size && -size < o.dc < size
}

/// The well-formedness of a finished spatial search order: keyed by squared
/// magnitude, ascending, components below `size`, and every non-negative
/// displacement present (so that a scan relative to any cell probes every
/// cell of the torus).
pub open spec fn loc_offsets_ok(offs: Seq<(i64, LocOffset)>, size: int) -> bool {
    &&& sorted_by_key(offs)
    &&& forall|j: int|
        0 <= j < offs.len() ==> (#[trigger] offs[j]).0 == loc_offset_mag(offs[j].1)
            && loc_offset_in_range(offs[j].1, size)
    &&& forall|o: LocOffset|
        #[trigger] loc_offset_in_range(o, size) && 0 <= o.dr && 0 <= o.dc ==> exists|j: int|
            0 <= j < offs.len() && (#[trigger] offs[j]).1 == o
}

/// Builds the spatial search order for the spiral fallback: the four
/// sign-reflections of every grid location, keyed and sorted ascending by
/// squared magnitude.
pub fn make_loc_offsets(size: usize) -> (offs: Vec<(i64, LocOffset)>)
    requires
        1 <= size <= 16777216,
    ensures
        offs@.len() == 4 * size * size,
        loc_offsets_ok(offs@, size as int),
{
    let mut offs: Vec<(i64, LocOffset)> = Vec::new();
    let mut a: usize = 0;
    while a < size
        invariant
            1 <= size <= 16777216,
            0 <= a <= size,
            offs@.len() == 4 * a * size,
            forall|j: int|
                0 <= j < offs@.len() ==> (#[trigger] offs@[j]).0 == loc_offset_mag(offs@[j].1)
                    && loc_offset_in_range(offs@[j].1, size as int),
            forall|o: LocOffset|
                #[trigger] loc_offset_in_range(o, size as int) && 0 <= o.dr && (o.dr as int) < a as int && 0
                    <= o.dc ==> exists|j: int|
                    0 <= j < offs@.len() && (#[trigger] offs@[j]).1 == o,
        decreases size - a,
    {
        let mut b: usize = 0;
        while b < size
            invariant
                1 <= size <= 16777216,
                0 <= a < size,
                0 <= b <= size,
                offs@.len() == 4 * a * size + 4 * b,
                forall|j: int|
                    0 <= j < offs@.len() ==> (#[trigger] offs@[j]).0 == loc_offset_mag(offs@[j].1)
                        && loc_offset_in_range(offs@[j].1, size as int),
                forall|o: LocOffset|
                    #[trigger] loc_offset_in_range(o, size as int) && 0 <= o.dr && (o.dr as int) < a as int
                        && 0 <= o.dc ==> exists|j: int|
                        0 <= j < offs@.len() && (#[trigger] offs@[j]).1 == o,
                forall|o: LocOffset|
                    #[trigger] loc_offset_in_range(o, size as int) && o.dr as int == a as int && 0 <= o.dc && (o.dc as int) < b as int ==> exists|j: int|
                        0 <= j < offs@.len() && (#[trigger] offs@[j]).1 == o,
            decreases size - b,
        {
            let pa: i32 = a as i32;
            let pb: i32 = b as i32;
            let na: i32 = -pa;
            let nb: i32 = -pb;
            proof {
                assert(pa as i64 * pa as i64 + pb as i64 * pb as i64 <= 2 * 16777216 * 16777216)
                    by (nonlinear_arith)
                    requires 0 <= pa <= 16777216, 0 <= pb <= 16777216;
            }
            let key: i64 = pa as i64 * pa as i64 + pb as i64 * pb as i64;
            let ghost at = offs@.len() as int;
            let ghost before = offs@;
            offs.push((key, LocOffset { dr: pa, dc: pb }));
            offs.push((key, LocOffset { dr: pa, dc: nb }));
            offs.push((key, LocOffset { dr: na, dc: pb }));
            offs.push((key, LocOffset { dr: na, dc: nb }));
            proof {
                assert((na as int) * (na as int) == (pa as int) * (pa as int) && (nb as int) * (
                nb as int) == (pb as int) * (pb as int)) by (nonlinear_arith)
                    requires
                        na as int == -(pa as int),
                        nb as int == -(pb as int),
                ;
                assert(forall|j: int| 0 <= j < at ==> offs@[j] == before[j]);
                assert(offs@[at + 0] == (key, LocOffset { dr: pa, dc: pb }));
                assert(offs@[at + 1] == (key, LocOffset { dr: pa, dc: nb }));
                assert(offs@[at + 2] == (key, LocOffset { dr: na, dc: pb }));
                assert(offs@[at + 3] == (key, LocOffset { dr: na, dc: nb }));
                assert forall|j: int|
                    at <= j < offs@.len() implies (#[trigger] offs@[j]).0 == loc_offset_mag(
                    offs@[j].1) && loc_offset_in_range(offs@[j].1, size as int) by {
                    assert(at <= j < at + 4);
                }
                assert(pa as int == a as int && pb as int == b as int);
            }
            b = b + 1;
        }
        proof {
            assert(4 * (a as int) * (size as int) + 4 * (size as int) == 4 * ((a as int) + 1) * (
            size as int)) by (nonlinear_arith);
        }
        a = a + 1;
    }
    let ghost pre = offs@;
    sort_by_key(&mut offs);
    proof {
        broadcast use vstd::seq_lib::group_to_multiset_ensures;

        assert forall|j: int|
            0 <= j < offs@.len() implies (#[trigger] offs@[j]).0 == loc_offset_mag(offs@[j].1)
            && loc_offset_in_range(offs@[j].1, size as int) by {
            assert(offs@.contains(offs@[j]));
            assert(offs@.to_multiset().count(offs@[j]) > 0);
            assert(pre.contains(offs@[j]));
        }
        assert forall|o: LocOffset|
            #[trigger] loc_offset_in_range(o, size as int) && 0 <= o.dr && 0 <= o.dc implies exists|
        j: int| 0 <= j < offs@.len() && (#[trigger] offs@[j]).1 == o by {
            let j0 = choose|j0: int| 0 <= j0 < pre.len() && (#[trigger] pre[j0]).1 == o;
            assert(pre.contains(pre[j0]));
            assert(pre.to_multiset().count(pre[j0]) > 0);
            assert(offs@.contains(pre[j0]));
            let j = choose|j: int| 0 <= j < offs@.len() && #[trigger] offs@[j] == pre[j0];
            assert(offs@[j].1 == o);
        }
    }
    offs
}

} // verus!
