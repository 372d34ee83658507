//! The sizes of a maze, and the maze before a wall is carved.

use vstd::prelude::*;
use crate::grid::{at, Grid, is_room, odd_cell, on_border};
use crate::maze_tile::{MazeTile, TileType};

verus! {

/// The smallest width and the smallest height of a maze.
pub const MIN_MAZE_SIZE: usize = 5;

/// The largest width and the largest height of a maze.
pub const MAX_MAZE_SIZE: usize = 65435;

/// Both dimensions lie between the smallest and the largest size.
pub open spec fn valid_maze_size(w: int, h: int) -> bool {
    MIN_MAZE_SIZE <= w <= MAX_MAZE_SIZE && MIN_MAZE_SIZE <= h <= MAX_MAZE_SIZE
}

/// The kind that a cell has before the start is chosen and any wall is carved.
pub open spec fn initial_kind(w: int, h: int, x: int, y: int) -> TileType {
    if on_border(w, h, x, y) {
        TileType::Border
    } else if odd_cell(x, y) {
        TileType::Open
    } else {
        TileType::Wall
    }
}

/// The identity of a cell: its place in row-major scan order, counted from 1.
pub open spec fn tile_id(w: int, x: int, y: int) -> int {
    y * w + x + 1
}

/// The tile that a cell holds before the start is chosen and any wall is carved.
pub open spec fn initial_tile(w: int, h: int, x: int, y: int) -> MazeTile {
    MazeTile::fresh(tile_id(w, x, y) as usize, initial_kind(w, h, x, y))
}

/// Row `y` of the maze before the start is chosen.
pub open spec fn blank_row(w: int, h: int, y: int) -> Seq<MazeTile> {
    Seq::new(w as nat, |x: int| initial_tile(w, h, x, y))
}

/// The maze before the start is chosen: a border ring, rooms on the odd cells,
/// walls everywhere else.
pub open spec fn blank_grid(w: int, h: int) -> Grid {
    Seq::new(h as nat, |y: int| blank_row(w, h, y))
}

/// `g` with the tile at (`x`, `y`) replaced by `tile`.
pub open spec fn with_tile(g: Grid, x: int, y: int, tile: MazeTile) -> Grid {
    g.update(y, g[y].update(x, tile))
}

/// `g` with the kind of the tile at (`x`, `y`) changed.
pub open spec fn with_kind(g: Grid, x: int, y: int, kind: TileType) -> Grid {
    with_tile(g, x, y, MazeTile { tile_type: kind, ..at(g, x, y) })
}

/// `g` with the tile at (`x`, `y`) marked as taken.
pub open spec fn with_taken(g: Grid, x: int, y: int) -> Grid {
    with_tile(g, x, y, MazeTile { can_be_used: false, ..at(g, x, y) })
}

/// The number of odd coordinates strictly inside a side of length `n`.
pub open spec fn rooms_along(n: int) -> int {
    (n - 1) / 2
}

/// The number of rooms of a `w` by `h` maze.
pub open spec fn room_count(w: int, h: int) -> int {
    rooms_along(w) * rooms_along(h)
}

/// The room with number `k` in row-major scan order, counted from 0.
pub open spec fn nth_room(w: int, k: int) -> (int, int) {
    (1 + 2 * (k % rooms_along(w)), 1 + 2 * (k / rooms_along(w)))
}

/// The maze that carving starts from: the blank maze with the start placed on
/// the room (`sx`, `sy`) and that room marked as taken.
pub open spec fn initial_grid(w: int, h: int, sx: int, sy: int) -> Grid {
    with_taken(with_kind(blank_grid(w, h), sx, sy, TileType::Start), sx, sy)
}

/// A cell index below `w * h` fits in `usize`, and so does every tile identity.
pub proof fn lemma_cell_index_bound(w: int, h: int, x: int, y: int)
    requires
        0 <= x < w,
        0 <= y < h,
    ensures
        0 <= y * w + x < w * h,
        0 <= y * w <= y * w + x,
        (y + 1) * w == y * w + w,
{
    assert((y + 1) * w == y * w + w) by (nonlinear_arith);
    assert(0 <= y * w) by (nonlinear_arith)
        requires
            0 <= y,
            0 <= w,
    ;
    assert((y + 1) * w <= h * w) by (nonlinear_arith)
        requires
            y + 1 <= h,
            0 <= w,
    ;
    assert(h * w == w * h) by (nonlinear_arith);
}

/// The area of a maze of valid size fits in 32 bits.
pub proof fn lemma_area_bound(w: int, h: int)
    requires
        0 <= w <= MAX_MAZE_SIZE,
        0 <= h <= MAX_MAZE_SIZE,
    ensures
        0 <= w * h <= 4_281_739_225,
        w * h <= usize::MAX,
{
    assert(0 <= w * h <= 65435 * 65435) by (nonlinear_arith)
        requires
            0 <= w <= 65435,
            0 <= h <= 65435,
    ;
}

/// Every number below the room count names a room, and the room lies inside the
/// border.
pub proof fn lemma_nth_room_is_room(w: int, h: int, k: int)
    requires
        valid_maze_size(w, h),
        0 <= k < room_count(w, h),
    ensures
        is_room(w, h, nth_room(w, k).0, nth_room(w, k).1),
        0 <= k % rooms_along(w) < rooms_along(w),
        0 <= k / rooms_along(w) < rooms_along(h),
{
    let cols = rooms_along(w);
    let rows = rooms_along(h);
    assert(cols >= 2 && rows >= 2);
    assert(0 <= k % cols < cols);
    assert(0 <= k / cols < rows) by (nonlinear_arith)
        requires
            0 <= k < cols * rows,
            cols > 0,
    ;
}

} // verus!
