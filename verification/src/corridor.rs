//! Mazes in order, and the corridors through them.

use vstd::prelude::*;
use crate::grid::{at, Grid, in_grid, interior, is_grid, is_room, odd_cell, on_border};
use crate::layout::{tile_id, with_tile};
use crate::maze_tile::{MazeTile, TileType};

verus! {

/// What holds of the tile at (`x`, `y`) in every maze, from the blank maze to
/// the finished one: its identity, a border that stays a border, rooms that
/// stay open, and no obstacle or taken cell that could still be used.
pub open spec fn tile_ok(w: int, h: int, x: int, y: int, t: MazeTile) -> bool {
    &&& t.id == tile_id(w, x, y)
    &&& on_border(w, h, x, y) ==> t.tile_type == TileType::Border && !t.can_be_used
    &&& is_room(w, h, x, y) ==> t.tile_type.passable()
    &&& interior(w, h, x, y) && !odd_cell(x, y) ==> (t.tile_type == TileType::Wall || t.tile_type
        == TileType::Open) && !t.can_be_used
    &&& t.can_be_used ==> t.tile_type == TileType::Open
}

/// Every tile of the `w` by `h` maze `g` is as `tile_ok` says.
#[verifier::opaque]
pub open spec fn maze_frame(g: Grid, w: int, h: int) -> bool {
    &&& w >= 3
    &&& h >= 3
    &&& is_grid(g, w, h)
    &&& forall|x: int, y: int| in_grid(w, h, x, y) ==> tile_ok(w, h, x, y, #[trigger] at(g, x, y))
}

/// A maze in order has the shape that it is said to have.
pub proof fn lemma_frame_is_grid(g: Grid, w: int, h: int)
    requires
        maze_frame(g, w, h),
    ensures
        is_grid(g, w, h),
        w >= 3,
        h >= 3,
{
    reveal(maze_frame);
}

/// The cell lies inside the border and can be walked on.
pub open spec fn cell_open(g: Grid, w: int, h: int, c: (usize, usize)) -> bool {
    interior(w, h, c.0 as int, c.1 as int) && at(g, c.0 as int, c.1 as int).tile_type.passable()
}

/// The cell is a room that the walk has taken.
pub open spec fn cell_taken_room(g: Grid, c: (usize, usize)) -> bool {
    odd_cell(c.0 as int, c.1 as int) && !at(g, c.0 as int, c.1 as int).can_be_used
}

/// (`dx`, `dy`) is one step along one axis.
pub open spec fn unit_step(dx: int, dy: int) -> bool {
    (dx == 0 && (dy == 1 || dy == -1)) || (dy == 0 && (dx == 1 || dx == -1))
}

/// `m` is one step from `a`, and `b` one more step the same way.
pub open spec fn straight(a: (usize, usize), m: (usize, usize), b: (usize, usize)) -> bool {
    &&& unit_step(m.0 - a.0, m.1 - a.1)
    &&& b.0 - m.0 == m.0 - a.0
    &&& b.1 - m.1 == m.1 - a.1
}

/// The cell before place `i` of the path, the cell at it and the cell after it
/// lie in one line, a step apart.
pub open spec fn straight_at(p: Seq<(usize, usize)>, i: int) -> bool {
    straight(p[i - 1], p[i], p[i + 1])
}

/// `p` is a corridor of the maze: it holds a room at every even place and, at
/// every odd place, the cell between the rooms before and after it; every cell
/// of it can be walked on, and every room of it has been taken by the walk.
pub open spec fn corridor(g: Grid, w: int, h: int, p: Seq<(usize, usize)>) -> bool {
    &&& p.len() % 2 == 1
    &&& forall|i: int| 0 <= i < p.len() ==> cell_open(g, w, h, #[trigger] p[i])
    &&& forall|i: int| 0 <= i < p.len() && i % 2 == 0 ==> cell_taken_room(g, #[trigger] p[i])
    &&& forall|i: int| 0 < i < p.len() && i % 2 == 1 ==> #[trigger] straight_at(p, i)
}

/// A corridor of at most `bound` cells leads from (`sx`, `sy`) to (`x`, `y`).
pub open spec fn reached(
    g: Grid,
    w: int,
    h: int,
    sx: int,
    sy: int,
    x: int,
    y: int,
    bound: int,
) -> bool {
    exists|p: Seq<(usize, usize)>|
        #[trigger] corridor(g, w, h, p) && p[0].0 == sx && p[0].1 == sy && p.last().0 == x
            && p.last().1 == y && p.len() <= bound
}

/// `g2` keeps what can be walked on in `g` and what has been taken in `g`.
pub open spec fn extends(g: Grid, g2: Grid, w: int, h: int) -> bool {
    &&& is_grid(g, w, h)
    &&& is_grid(g2, w, h)
    &&& forall|x: int, y: int|
        in_grid(w, h, x, y) ==> {
            &&& at(g, x, y).tile_type.passable() ==> (#[trigger] at(g2, x, y)).tile_type.passable()
            &&& !at(g, x, y).can_be_used ==> !at(g2, x, y).can_be_used
        }
}

/// A corridor stays one when cells are opened or taken.
pub proof fn lemma_corridor_extends(g: Grid, g2: Grid, w: int, h: int, p: Seq<(usize, usize)>)
    requires
        corridor(g, w, h, p),
        extends(g, g2, w, h),
    ensures
        corridor(g2, w, h, p),
{
    assert forall|i: int| 0 <= i < p.len() implies cell_open(g2, w, h, #[trigger] p[i]) by {
        assert(cell_open(g, w, h, p[i]));
        assert(at(g2, p[i].0 as int, p[i].1 as int).tile_type.passable());
    }
    assert forall|i: int| 0 <= i < p.len() && i % 2 == 0 implies cell_taken_room(
        g2,
        #[trigger] p[i],
    ) by {
        assert(cell_taken_room(g, p[i]));
        assert(cell_open(g, w, h, p[i]));
        assert(!at(g2, p[i].0 as int, p[i].1 as int).can_be_used);
    }
    assert forall|i: int| 0 < i < p.len() && i % 2 == 1 implies #[trigger] straight_at(p, i) by {
        assert(straight_at(p, i));
    }
}

/// What was reached stays reached when cells are opened or taken, and under a
/// larger bound.
pub proof fn lemma_reached_extends(
    g: Grid,
    g2: Grid,
    w: int,
    h: int,
    sx: int,
    sy: int,
    x: int,
    y: int,
    bound: int,
    bound2: int,
)
    requires
        reached(g, w, h, sx, sy, x, y, bound),
        extends(g, g2, w, h),
        bound <= bound2,
    ensures
        reached(g2, w, h, sx, sy, x, y, bound2),
{
    let p = choose|p: Seq<(usize, usize)>|
        #[trigger] corridor(g, w, h, p) && p[0].0 == sx && p[0].1 == sy && p.last().0 == x
            && p.last().1 == y && p.len() <= bound;
    lemma_corridor_extends(g, g2, w, h, p);
}

/// Replacing one tile changes that tile and no other, and keeps the shape.
pub proof fn lemma_with_tile(g: Grid, w: int, h: int, x0: int, y0: int, tile: MazeTile)
    requires
        is_grid(g, w, h),
        in_grid(w, h, x0, y0),
    ensures
        is_grid(with_tile(g, x0, y0, tile), w, h),
        at(with_tile(g, x0, y0, tile), x0, y0) == tile,
        forall|x: int, y: int|
            in_grid(w, h, x, y) && (x != x0 || y != y0) ==> #[trigger] at(
                with_tile(g, x0, y0, tile),
                x,
                y,
            ) == at(g, x, y),
{
    let g2 = with_tile(g, x0, y0, tile);
    assert forall|y: int| 0 <= y < h implies (#[trigger] g2[y]).len() == w by {
        assert(g[y].len() == w);
    }
    assert forall|x: int, y: int| in_grid(w, h, x, y) && (x != x0 || y != y0) implies #[trigger] at(
        g2,
        x,
        y,
    ) == at(g, x, y) by {
        assert(g[y].len() == w);
        assert(g[y0].len() == w);
    }
    assert(g[y0].len() == w);
}

/// The cells of a corridor are open cells of the maze; its rooms are taken, and
/// the cells between its rooms are no rooms.
pub proof fn lemma_corridor_cell(g: Grid, w: int, h: int, p: Seq<(usize, usize)>, i: int)
    requires
        corridor(g, w, h, p),
        0 <= i < p.len(),
    ensures
        cell_open(g, w, h, p[i]),
        i % 2 == 0 ==> cell_taken_room(g, p[i]),
        i % 2 == 1 ==> !odd_cell(p[i].0 as int, p[i].1 as int),
{
    if i % 2 == 1 {
        assert(straight_at(p, i));
        assert(cell_taken_room(g, p[i - 1]));
    }
}

} // verus!
