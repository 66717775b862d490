use vstd::prelude::*;
use crate::board::Board;
use crate::color::{color_base_to_color, display_color, Rgb};
use crate::grid::{cell_index, cell_of, lemma_cell_of_bounds, Loc};

verus! {

/// The pixel a finished cell renders to: the linear 8-bit rescale of its
/// color, `base * 255 / (color_size - 1)` per channel with integer
/// truncation; a never-assigned cell stays background black.
pub open spec fn rendered_cell(b: Board, ci: int) -> Rgb {
    if b.grid@[ci] is Some {
        display_color(b.grid@[ci]->Some_0, b.color_size as int)
    } else {
        Rgb { r: 0, g: 0, b: 0 }
    }
}

/// `img` is exactly the rendering of the board: one row of pixels per grid
/// row, each pixel the `rendered_cell` of its cell.
pub open spec fn image_matches(b: Board, img: Seq<Vec<Rgb>>) -> bool {
    &&& img.len() == b.size
    &&& forall|r: int| 0 <= r < b.size ==> (#[trigger] img[r])@.len() == b.size
    &&& forall|r: int, c: int|
        0 <= r < b.size && 0 <= c < b.size ==> (#[trigger] img[r]@[c]) == rendered_cell(
            b,
            cell_of(Loc { row: r as usize, col: c as usize }, b.size as int),
        )
}

/// Renders the grid to rows of 8-bit pixels, rescaling every placed color
/// exactly as `display_color` states.
pub fn render_grid(b: &Board) -> (img: Vec<Vec<Rgb>>)
    requires
        b.wf(),
    ensures
        image_matches(*b, img@),
{
    let size = b.size;
    let mut img: Vec<Vec<Rgb>> = Vec::new();
    let mut r: usize = 0;
    while r < size
        invariant
            b.wf(),
            size == b.size,
            0 <= r <= size,
            img@.len() == r,
            forall|r1: int| 0 <= r1 < r ==> (#[trigger] img@[r1])@.len() == size,
            forall|r1: int, c1: int|
                0 <= r1 < r && 0 <= c1 < size ==> (#[trigger] img@[r1]@[c1]) == rendered_cell(
                    *b,
                    cell_of(Loc { row: r1 as usize, col: c1 as usize }, size as int),
                ),
        decreases size - r,
    {
        let mut row: Vec<Rgb> = Vec::new();
        let mut c: usize = 0;
        while c < size
            invariant
                b.wf(),
                size == b.size,
                0 <= r < size,
                0 <= c <= size,
                row@.len() == c,
                forall|c1: int|
                    0 <= c1 < c ==> (#[trigger] row@[c1]) == rendered_cell(
                        *b,
                        cell_of(Loc { row: r as usize, col: c1 as usize }, size as int),
                    ),
            decreases size - c,
        {
            let l = Loc { row: r, col: c };
            proof {
                lemma_cell_of_bounds(l, size as int);
            }
            let ci = cell_index(l, size);
            let px = match b.grid[ci] {
                Some(cb) => color_base_to_color(cb, b.color_size),
                None => Rgb { r: 0, g: 0, b: 0 },
            };
            row.push(px);
            c = c + 1;
        }
        img.push(row);
        r = r + 1;
    }
    img
}

} // verus!
