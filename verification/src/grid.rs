//! The model of a maze: rows of tiles, and the names of its cells.

use vstd::prelude::*;
use crate::maze_tile::MazeTile;

verus! {

/// The mathematical model of a maze: rows of tiles, row `y` first, column `x` second.
pub type Grid = Seq<Seq<MazeTile>>;

/// The model of a maze held in nested vectors.
pub open spec fn view_grid(maze: Vec<Vec<MazeTile>>) -> Grid {
    Seq::new(maze@.len(), |y: int| maze@[y]@)
}

/// The tile in column `x` of row `y`.
pub open spec fn at(g: Grid, x: int, y: int) -> MazeTile {
    g[y][x]
}

/// `g` has `h` rows of `w` tiles each.
pub open spec fn is_grid(g: Grid, w: int, h: int) -> bool {
    &&& g.len() == h
    &&& forall|y: int| 0 <= y < h ==> (#[trigger] g[y]).len() == w
}

/// The nested vectors hold `h` rows of `w` tiles each.
pub open spec fn has_shape(maze: Vec<Vec<MazeTile>>, w: int, h: int) -> bool {
    &&& maze@.len() == h
    &&& forall|y: int| 0 <= y < h ==> (#[trigger] maze@[y])@.len() == w
}

/// Nested vectors have the shape of their model.
pub proof fn lemma_shape_of_view(maze: Vec<Vec<MazeTile>>, w: int, h: int)
    ensures
        is_grid(view_grid(maze), w, h) <==> has_shape(maze, w, h),
{
    if is_grid(view_grid(maze), w, h) {
        assert forall|y: int| 0 <= y < h implies (#[trigger] maze@[y])@.len() == w by {
            assert(view_grid(maze)[y] == maze@[y]@);
        }
    }
    if has_shape(maze, w, h) {
        assert forall|y: int| 0 <= y < h implies (#[trigger] view_grid(maze)[y]).len() == w by {
            assert(view_grid(maze)[y] == maze@[y]@);
        }
    }
}

/// The number of tiles in the first row, or 0 where there is no row.
pub open spec fn grid_width(g: Grid) -> int {
    if g.len() > 0 {
        g[0].len() as int
    } else {
        0
    }
}

/// The number of rows.
pub open spec fn grid_height(g: Grid) -> int {
    g.len() as int
}

/// The cell lies in a maze of `w` columns and `h` rows.
pub open spec fn in_grid(w: int, h: int, x: int, y: int) -> bool {
    0 <= x < w && 0 <= y < h
}

/// The cell lies on the outer ring.
pub open spec fn on_border(w: int, h: int, x: int, y: int) -> bool {
    in_grid(w, h, x, y) && (x == 0 || y == 0 || x == w - 1 || y == h - 1)
}

/// The cell lies inside the outer ring.
pub open spec fn interior(w: int, h: int, x: int, y: int) -> bool {
    0 < x < w - 1 && 0 < y < h - 1
}

/// Both coordinates are odd: the cells that are open before any wall is carved.
pub open spec fn odd_cell(x: int, y: int) -> bool {
    x % 2 == 1 && y % 2 == 1
}

/// A room is an interior cell with two odd coordinates.
pub open spec fn is_room(w: int, h: int, x: int, y: int) -> bool {
    interior(w, h, x, y) && odd_cell(x, y)
}

} // verus!
