use vstd::prelude::*;
use vstd::arithmetic::div_mod::{
    lemma_div_denominator, lemma_fundamental_div_mod, lemma_fundamental_div_mod_converse_div,
    lemma_fundamental_div_mod_converse_mod, lemma_mod_division_less_than_divisor,
    lemma_multiply_divide_lt,
};

verus! {

/// A discretized color: three channel coordinates, each in `[0, color_size)`,
/// where `color_size` is the run's number of levels per channel.
#[derive(Clone, Copy, PartialEq, Eq, Structural, Debug)]
pub struct ColorBase {
    pub r: u16,
    pub g: u16,
    pub b: u16,
}

/// An 8-bit display color, the rendered form of a `ColorBase`.
#[derive(Clone, Copy, PartialEq, Eq, Structural, Debug)]
pub struct Rgb {
    pub r: u8,
    pub g: u8,
    pub b: u8,
}

/// Whether every channel of `c` lies below `color_size`.
pub open spec fn valid_color(c: ColorBase, color_size: int) -> bool {
    c.r < color_size && c.g < color_size && c.b < color_size
}

/// The rank of a color in the canonical enumeration of the color cube:
/// red varies fastest, then green, then blue.
pub open spec fn color_index(c: ColorBase, cs: int) -> int {
    c.r + cs * c.g + cs * cs * c.b
}

/// The color at rank `n` of the canonical enumeration.
pub open spec fn color_at(n: int, cs: int) -> ColorBase {
    ColorBase { r: (n % cs) as u16, g: ((n / cs) % cs) as u16, b: (n / (cs * cs)) as u16 }
}

/// Squared Euclidean distance between two colors, channel-wise.
pub open spec fn color_dist_sq(a: ColorBase, b: ColorBase) -> int {
    (a.r - b.r) * (a.r - b.r) + (a.g - b.g) * (a.g - b.g) + (a.b - b.b) * (a.b - b.b)
}

/// One 8-bit display channel: the linear rescale of a channel coordinate
/// from `[0, color_size)` onto `[0, 255]`, truncating.
pub open spec fn display_channel(base: int, color_size: int) -> int {
    base * 255 / (color_size - 1)
}

/// The rendered form of a color: every channel rescaled to 8 bits.
pub open spec fn display_color(c: ColorBase, color_size: int) -> Rgb {
    Rgb {
        r: display_channel(c.r as int, color_size) as u8,
        g: display_channel(c.g as int, color_size) as u8,
        b: display_channel(c.b as int, color_size) as u8,
    }
}

/// Rescales one channel coordinate to its 8-bit display value.
pub fn channel_to_display(base: u16, color_size: usize) -> (r: u8)
    requires
        2 <= color_size <= 65536,
        base < color_size,
    ensures
        r == display_channel(base as int, color_size as int),
{
    proof {
        assert(base * 255 <= (color_size - 1) * 255) by (nonlinear_arith)
            requires base <= color_size - 1;
        assert((base * 255) / ((color_size - 1) as int) <= 255) by (nonlinear_arith)
            requires base * 255 <= (color_size - 1) * 255, color_size >= 2;
        assert((base * 255) / ((color_size - 1) as int) >= 0) by (nonlinear_arith)
            requires base >= 0, color_size >= 2;
    }
    let wide: u64 = base as u64 * 255;
    (wide / (color_size as u64 - 1)) as u8
}

/// Rescales a whole color to its 8-bit display value, exactly as
/// `display_color` describes: `base * 255 / (color_size - 1)` per channel,
/// truncating.
pub fn color_base_to_color(c: ColorBase, color_size: usize) -> (out: Rgb)
    requires
        2 <= color_size <= 65536,
        valid_color(c, color_size as int),
    ensures
        out == display_color(c, color_size as int),
{
    Rgb {
        r: channel_to_display(c.r, color_size),
        g: channel_to_display(c.g, color_size),
        b: channel_to_display(c.b, color_size),
    }
}

/// The rank of a valid color is a position in the full enumeration.
pub proof fn lemma_color_index_bounds(c: ColorBase, cs: int)
    requires
        1 <= cs,
        valid_color(c, cs),
    ensures
        0 <= color_index(c, cs) < cs * cs * cs,
{
    assert(c.r + cs * c.g + cs * cs * c.b < cs * cs * cs) by (nonlinear_arith)
        requires 1 <= cs, c.r < cs, c.g < cs, c.b < cs;
    assert(c.r + cs * c.g + cs * cs * c.b >= 0) by (nonlinear_arith)
        requires 1 <= cs, c.r >= 0, c.g >= 0, c.b >= 0;
}

/// Decoding a rank below `cs^3` yields a valid color.
pub proof fn lemma_color_at_valid(n: int, cs: int)
    requires
        1 <= cs <= 65536,
        0 <= n < cs * cs * cs,
    ensures
        valid_color(color_at(n, cs), cs),
{
    lemma_mod_division_less_than_divisor(n, cs);
    lemma_mod_division_less_than_divisor(n / cs, cs);
    assert(cs * cs >= 1) by (nonlinear_arith)
        requires cs >= 1;
    lemma_multiply_divide_lt(n, cs * cs, cs);
}

/// Encoding is a left inverse of decoding: the color at rank `n` has rank `n`.
pub proof fn lemma_index_of_color_at(n: int, cs: int)
    requires
        1 <= cs <= 65536,
        0 <= n < cs * cs * cs,
    ensures
        color_index(color_at(n, cs), cs) == n,
{
    lemma_color_at_valid(n, cs);
    lemma_fundamental_div_mod(n, cs);
    lemma_fundamental_div_mod(n / cs, cs);
    assert(cs * cs >= 1) by (nonlinear_arith)
        requires cs >= 1;
    lemma_div_denominator(n, cs, cs);
    let r = n % cs;
    let g = (n / cs) % cs;
    let b = n / (cs * cs);
    lemma_mod_division_less_than_divisor(n, cs);
    lemma_mod_division_less_than_divisor(n / cs, cs);
    lemma_multiply_divide_lt(n, cs * cs, cs);
    assert(0 <= r < cs && 0 <= g < cs && 0 <= b < cs);
    assert(color_at(n, cs).r == r && color_at(n, cs).g == g && color_at(n, cs).b == b);
    assert(n == r + cs * (g + cs * b));
    assert(r + cs * (g + cs * b) == r + cs * g + cs * cs * b) by (nonlinear_arith);
}

/// Decoding is a left inverse of encoding: a valid color is the color at
/// its own rank.
pub proof fn lemma_color_at_of_index(c: ColorBase, cs: int)
    requires
        1 <= cs <= 65536,
        valid_color(c, cs),
    ensures
        color_at(color_index(c, cs), cs) == c,
{
    lemma_color_index_bounds(c, cs);
    let n = color_index(c, cs);
    assert(c.r + cs * c.g + cs * cs * c.b == c.r + cs * (c.g + cs * c.b)) by (nonlinear_arith);
    assert(n == c.r + cs * (c.g + cs * c.b));
    lemma_fundamental_div_mod_converse_mod(n, cs, c.g + cs * c.b, c.r as int);
    lemma_fundamental_div_mod_converse_div(n, cs, c.g + cs * c.b, c.r as int);
    assert(n % cs == c.r);
    assert(n / cs == c.g + cs * c.b);
    lemma_fundamental_div_mod_converse_mod(n / cs, cs, c.b as int, c.g as int);
    assert((n / cs) % cs == c.g);
    assert(cs * cs >= 1) by (nonlinear_arith)
        requires cs >= 1;
    lemma_div_denominator(n, cs, cs);
    lemma_fundamental_div_mod_converse_div(n / cs, cs, c.b as int, c.g as int);
    assert(n / (cs * cs) == c.b);
}

/// Distinct valid colors have distinct ranks.
pub proof fn lemma_color_index_injective(c1: ColorBase, c2: ColorBase, cs: int)
    requires
        1 <= cs <= 65536,
        valid_color(c1, cs),
        valid_color(c2, cs),
        color_index(c1, cs) == color_index(c2, cs),
    ensures
        c1 == c2,
{
    lemma_color_at_of_index(c1, cs);
    lemma_color_at_of_index(c2, cs);
}

/// Distinct valid colors have distinct ranks.
pub proof fn lemma_color_index_distinct(c1: ColorBase, c2: ColorBase, cs: int)
    requires
        1 <= cs <= 65536,
        valid_color(c1, cs),
        valid_color(c2, cs),
        c1 != c2,
    ensures
        color_index(c1, cs) != color_index(c2, cs),
{
    if color_index(c1, cs) == color_index(c2, cs) {
        lemma_color_index_injective(c1, c2, cs);
    }
}

/// Computes the rank of a valid color in the canonical enumeration.
pub fn color_index_exec(c: ColorBase, cs: usize, total: usize) -> (n: usize)
    requires
        1 <= cs <= 65536,
        total == cs * cs * cs,
        valid_color(c, cs as int),
    ensures
        n == color_index(c, cs as int),
        n < total,
{
    proof {
        lemma_color_index_bounds(c, cs as int);
        assert(cs * c.g <= cs * cs * cs && cs * cs <= cs * cs * cs && cs * cs * c.b <= cs * cs
            * cs) by (nonlinear_arith)
            requires 1 <= cs, c.g < cs, c.b < cs;
    }
    c.r as usize + cs * c.g as usize + cs * cs * c.b as usize
}

/// Enumerates the whole color cube in canonical order: the result lists
/// every valid color exactly once, at its own rank.
pub fn enumerate_colors(cs: usize, total: usize) -> (colors: Vec<ColorBase>)
    requires
        2 <= cs <= 65536,
        total == cs * cs * cs,
    ensures
        colors@.len() == total,
        forall|n: int| 0 <= n < total ==> #[trigger] colors@[n] == color_at(n, cs as int),
        forall|n: int| 0 <= n < total ==> valid_color(#[trigger] colors@[n], cs as int),
        colors@.no_duplicates(),
{
    let mut colors: Vec<ColorBase> = Vec::new();
    proof {
        assert(cs * cs <= cs * cs * cs) by (nonlinear_arith)
            requires 1 <= cs;
    }
    let cs2: usize = cs * cs;
    let mut n: usize = 0;
    while n < total
        invariant
            2 <= cs <= 65536,
            total == cs * cs * cs,
            cs2 == cs * cs,
            0 <= n <= total,
            colors@.len() == n,
            forall|k: int| 0 <= k < n ==> #[trigger] colors@[k] == color_at(k, cs as int),
        decreases total - n,
    {
        proof {
            lemma_color_at_valid(n as int, cs as int);
        }
        let r: u16 = (n % cs) as u16;
        let g: u16 = ((n / cs) % cs) as u16;
        proof {
            assert(cs * cs >= 1) by (nonlinear_arith)
                requires cs >= 1;
            lemma_div_denominator(n as int, cs as int, cs as int);
            lemma_multiply_divide_lt(n as int, cs2 as int, cs as int);
        }
        let b: u16 = (n / cs2) as u16;
        colors.push(ColorBase { r, g, b });
        n = n + 1;
    }
    proof {
        assert forall|k: int| 0 <= k < total implies valid_color(#[trigger] colors@[k], cs as int) by {
            lemma_color_at_valid(k, cs as int);
        }
        assert forall|i: int, j: int| 0 <= i < j < total implies colors@[i] != colors@[j] by {
            lemma_index_of_color_at(i, cs as int);
            lemma_index_of_color_at(j, cs as int);
        }
    }
    colors
}

} // verus!
