//! The pass that opens extra walls along the solution.

use vstd::prelude::*;
use crate::connect::{
    cell_passable, connected, fully_connected, lemma_connected_extends, lemma_connected_one_more,
};
use crate::corridor::{
    extends, lemma_frame_is_grid, lemma_with_tile, maze_frame, tile_ok, unit_step,
};
use crate::grid::{at, Grid, in_grid, interior, is_grid, on_border};
use crate::layout::with_kind;
use crate::maze_tile::{MazeTile, TileType};

verus! {

/// The place in the solution of the first cell that the pass looks at, and how
/// many places the pass goes on after it has opened a wall.
pub const NEXT_OPEN_WALL: usize = 15;

/// No wall is opened beside a cell whose row and column both lie within this
/// distance of the exit's.
pub const DISTANCE_FROM_EXIT: usize = 10;

/// The cell's row or its column lies further from the exit's than
/// `DISTANCE_FROM_EXIT`.
pub open spec fn far_from_exit(x: int, y: int, exit_x: int, exit_y: int) -> bool {
    ||| y - exit_y > DISTANCE_FROM_EXIT
    ||| exit_y - y > DISTANCE_FROM_EXIT
    ||| x - exit_x > DISTANCE_FROM_EXIT
    ||| exit_x - x > DISTANCE_FROM_EXIT
}

/// The wall one step from (`x`, `y`) in the direction (`dx`, `dy`) can be opened:
/// it stands, and so do the two cells that flank it across that direction.
pub open spec fn openable(g: Grid, x: int, y: int, dx: int, dy: int) -> bool {
    &&& at(g, x + dx, y + dy).tile_type == TileType::Wall
    &&& at(g, x + dx - dy, y + dy - dx).tile_type == TileType::Wall
    &&& at(g, x + dx + dy, y + dy + dx).tile_type == TileType::Wall
}

/// The first direction in which a wall beside (`x`, `y`) can be opened, in the
/// order rising `y`, falling `y`, rising `x`, falling `x`.
pub open spec fn opening_direction(g: Grid, x: int, y: int) -> Option<(int, int)> {
    if openable(g, x, y, 0, 1) {
        Some((0, 1))
    } else if openable(g, x, y, 0, -1) {
        Some((0, -1))
    } else if openable(g, x, y, 1, 0) {
        Some((1, 0))
    } else if openable(g, x, y, -1, 0) {
        Some((-1, 0))
    } else {
        None
    }
}

/// The maze with the wall one step from (`x`, `y`) opened, and with the cell one
/// step further opened too if it is a standing wall.
pub open spec fn widened(g: Grid, x: int, y: int, dx: int, dy: int) -> Grid {
    let g1 = with_kind(g, x + dx, y + dy, TileType::Open);
    if at(g1, x + 2 * dx, y + 2 * dy).tile_type == TileType::Wall {
        with_kind(g1, x + 2 * dx, y + 2 * dy, TileType::Open)
    } else {
        g1
    }
}

/// How many places of the path lie at or behind place `next`.
pub open spec fn places_left(path: Seq<(usize, usize)>, next: nat) -> nat {
    if next < path.len() {
        (path.len() - next) as nat
    } else {
        0
    }
}

/// The maze after the pass has gone on from place `next` of the path. At a place
/// near the exit, or where no wall can be opened, the pass goes on to the next
/// place; where it opens a wall, it goes on `NEXT_OPEN_WALL` places further.
pub open spec fn open_walls_from(g: Grid, path: Seq<(usize, usize)>, next: nat) -> Grid
    decreases places_left(path, next),
{
    if next >= path.len() {
        g
    } else {
        let x = path[next as int].0 as int;
        let y = path[next as int].1 as int;
        if !far_from_exit(x, y, path.last().0 as int, path.last().1 as int) {
            open_walls_from(g, path, next + 1)
        } else {
            match opening_direction(g, x, y) {
                Some(d) => open_walls_from(
                    widened(g, x, y, d.0, d.1),
                    path,
                    next + NEXT_OPEN_WALL as nat,
                ),
                None => open_walls_from(g, path, next + 1),
            }
        }
    }
}

/// The maze after the whole pass along the solution.
pub open spec fn with_open_walls(g: Grid, path: Seq<(usize, usize)>) -> Grid {
    open_walls_from(g, path, NEXT_OPEN_WALL as nat)
}

/// Between `g` and `g2` nothing has happened but that standing walls were
/// opened.
pub open spec fn only_walls_opened(g: Grid, g2: Grid, w: int, h: int) -> bool {
    forall|x: int, y: int|
        in_grid(w, h, x, y) ==> #[trigger] at(g2, x, y) == at(g, x, y) || (at(g, x, y).tile_type
            == TileType::Wall && at(g2, x, y) == (MazeTile {
            tile_type: TileType::Open,
            ..at(g, x, y)
        }))
}

/// Every cell of the path lies inside the border.
pub open spec fn path_inside(w: int, h: int, path: Seq<(usize, usize)>) -> bool {
    forall|i: int|
        0 <= i < path.len() ==> interior(w, h, (#[trigger] path[i]).0 as int, path[i].1 as int)
}

/// Opening a standing wall of a maze in order leaves the maze in order.
pub proof fn lemma_wall_opened(g: Grid, w: int, h: int, x: int, y: int)
    requires
        maze_frame(g, w, h),
        in_grid(w, h, x, y),
        at(g, x, y).tile_type == TileType::Wall,
    ensures
        maze_frame(with_kind(g, x, y, TileType::Open), w, h),
        extends(g, with_kind(g, x, y, TileType::Open), w, h),
        only_walls_opened(g, with_kind(g, x, y, TileType::Open), w, h),
        interior(w, h, x, y),
        at(with_kind(g, x, y, TileType::Open), x, y).tile_type == TileType::Open,
        forall|a: int, b: int|
            in_grid(w, h, a, b) && (a != x || b != y) ==> #[trigger] at(
                with_kind(g, x, y, TileType::Open),
                a,
                b,
            ) == at(g, a, b),
{
    reveal(maze_frame);
    let g2 = with_kind(g, x, y, TileType::Open);
    lemma_with_tile(g, w, h, x, y, MazeTile { tile_type: TileType::Open, ..at(g, x, y) });
    assert(tile_ok(w, h, x, y, at(g, x, y)));
    assert forall|a: int, b: int| in_grid(w, h, a, b) implies tile_ok(
        w,
        h,
        a,
        b,
        #[trigger] at(g2, a, b),
    ) by {
        assert(tile_ok(w, h, a, b, at(g, a, b)));
        if a != x || b != y {
            assert(at(g2, a, b) == at(g, a, b));
        }
    }
    assert forall|a: int, b: int| in_grid(w, h, a, b) implies {
        &&& at(g, a, b).tile_type.passable() ==> (#[trigger] at(g2, a, b)).tile_type.passable()
        &&& !at(g, a, b).can_be_used ==> !at(g2, a, b).can_be_used
    } by {
        if a != x || b != y {
            assert(at(g2, a, b) == at(g, a, b));
        }
    }
}

/// `extends` and `only_walls_opened` carry over two changes in a row.
pub proof fn lemma_changes_compose(g: Grid, g1: Grid, g2: Grid, w: int, h: int)
    requires
        extends(g, g1, w, h),
        extends(g1, g2, w, h),
        only_walls_opened(g, g1, w, h),
        only_walls_opened(g1, g2, w, h),
    ensures
        extends(g, g2, w, h),
        only_walls_opened(g, g2, w, h),
{
    assert forall|a: int, b: int| in_grid(w, h, a, b) implies {
        &&& at(g, a, b).tile_type.passable() ==> (#[trigger] at(g2, a, b)).tile_type.passable()
        &&& !at(g, a, b).can_be_used ==> !at(g2, a, b).can_be_used
    } by {
        assert(at(g, a, b).tile_type.passable() ==> at(g1, a, b).tile_type.passable());
    }
    assert forall|a: int, b: int| in_grid(w, h, a, b) implies #[trigger] at(g2, a, b) == at(g, a, b)
        || (at(g, a, b).tile_type == TileType::Wall && at(g2, a, b) == (MazeTile {
        tile_type: TileType::Open,
        ..at(g, a, b)
    })) by {
        assert(at(g1, a, b) == at(g, a, b) || (at(g, a, b).tile_type == TileType::Wall && at(
            g1,
            a,
            b,
        ) == (MazeTile { tile_type: TileType::Open, ..at(g, a, b) })));
    }
}

/// Opening a wall beside an inner cell, and the wall behind it, leaves the maze
/// in order and changes nothing but walls.
pub proof fn lemma_widened(g: Grid, w: int, h: int, x: int, y: int, dx: int, dy: int)
    requires
        maze_frame(g, w, h),
        interior(w, h, x, y),
        unit_step(dx, dy),
        at(g, x + dx, y + dy).tile_type == TileType::Wall,
    ensures
        maze_frame(widened(g, x, y, dx, dy), w, h),
        is_grid(widened(g, x, y, dx, dy), w, h),
        extends(g, widened(g, x, y, dx, dy), w, h),
        only_walls_opened(g, widened(g, x, y, dx, dy), w, h),
        in_grid(w, h, x + 2 * dx, y + 2 * dy),
{
    let g1 = with_kind(g, x + dx, y + dy, TileType::Open);
    lemma_wall_opened(g, w, h, x + dx, y + dy);
    lemma_frame_is_grid(g1, w, h);
    if at(g1, x + 2 * dx, y + 2 * dy).tile_type == TileType::Wall {
        let g2 = with_kind(g1, x + 2 * dx, y + 2 * dy, TileType::Open);
        lemma_wall_opened(g1, w, h, x + 2 * dx, y + 2 * dy);
        lemma_changes_compose(g, g1, g2, w, h);
        lemma_frame_is_grid(g2, w, h);
    }
}

/// Opening a wall beside a connected cell, and the wall behind it, leaves the
/// maze fully connected.
pub proof fn lemma_widened_connected(
    g: Grid,
    w: int,
    h: int,
    sx: int,
    sy: int,
    x: int,
    y: int,
    dx: int,
    dy: int,
)
    requires
        maze_frame(g, w, h),
        w <= usize::MAX,
        h <= usize::MAX,
        interior(w, h, x, y),
        unit_step(dx, dy),
        at(g, x + dx, y + dy).tile_type == TileType::Wall,
        at(g, x, y).tile_type.passable(),
        fully_connected(g, w, h, sx, sy),
    ensures
        fully_connected(widened(g, x, y, dx, dy), w, h, sx, sy),
{
    let g1 = with_kind(g, x + dx, y + dy, TileType::Open);
    let g2 = widened(g, x, y, dx, dy);
    let wall = ((x + dx) as usize, (y + dy) as usize);
    let far = ((x + 2 * dx) as usize, (y + 2 * dy) as usize);
    lemma_wall_opened(g, w, h, x + dx, y + dy);
    lemma_widened(g, w, h, x, y, dx, dy);
    lemma_frame_is_grid(g1, w, h);
    if at(g1, x + 2 * dx, y + 2 * dy).tile_type == TileType::Wall {
        lemma_wall_opened(g1, w, h, x + 2 * dx, y + 2 * dy);
    }
    assert(connected(g, w, h, sx, sy, x, y));
    lemma_connected_extends(g, g2, w, h, sx, sy, x, y);
    assert(at(g2, x + dx, y + dy).tile_type == TileType::Open);
    lemma_connected_one_more(g2, w, h, sx, sy, x, y, wall);
    assert forall|a: int, b: int|
        in_grid(w, h, a, b) && at(g2, a, b).tile_type.passable() implies #[trigger] connected(
        g2,
        w,
        h,
        sx,
        sy,
        a,
        b,
    ) by {
        if a == x + dx && b == y + dy {
        } else if a == x + 2 * dx && b == y + 2 * dy {
            lemma_connected_one_more(g2, w, h, sx, sy, x + dx, y + dy, far);
        } else {
            assert(at(g1, a, b) == at(g, a, b));
            assert(at(g2, a, b) == at(g, a, b));
            assert(connected(g, w, h, sx, sy, a, b));
            lemma_connected_extends(g, g2, w, h, sx, sy, a, b);
        }
    }
}

/// The direction in which the pass opens a wall is one step along one axis, and
/// the wall there can be opened.
pub proof fn lemma_opening_direction(g: Grid, x: int, y: int)
    ensures
        opening_direction(g, x, y) matches Some(d) ==> unit_step(d.0, d.1) && openable(
            g,
            x,
            y,
            d.0,
            d.1,
        ),
        opening_direction(g, x, y) is None ==> !openable(g, x, y, 0, 1) && !openable(g, x, y, 0, -1)
            && !openable(g, x, y, 1, 0) && !openable(g, x, y, -1, 0),
{
}

/// The pass leaves a maze in order, and changes nothing but that it opens
/// standing walls.
pub proof fn lemma_open_walls_keep(g: Grid, w: int, h: int, path: Seq<(usize, usize)>, next: nat)
    requires
        maze_frame(g, w, h),
        path_inside(w, h, path),
    ensures
        maze_frame(open_walls_from(g, path, next), w, h),
        is_grid(open_walls_from(g, path, next), w, h),
        extends(g, open_walls_from(g, path, next), w, h),
        only_walls_opened(g, open_walls_from(g, path, next), w, h),
    decreases places_left(path, next),
{
    lemma_frame_is_grid(g, w, h);
    if next >= path.len() {
    } else {
        let x = path[next as int].0 as int;
        let y = path[next as int].1 as int;
        if !far_from_exit(x, y, path.last().0 as int, path.last().1 as int) {
            lemma_open_walls_keep(g, w, h, path, next + 1);
        } else {
            lemma_opening_direction(g, x, y);
            match opening_direction(g, x, y) {
                Some(d) => {
                    let g1 = widened(g, x, y, d.0, d.1);
                    lemma_widened(g, w, h, x, y, d.0, d.1);
                    lemma_open_walls_keep(g1, w, h, path, next + NEXT_OPEN_WALL as nat);
                    lemma_changes_compose(
                        g,
                        g1,
                        open_walls_from(g1, path, next + NEXT_OPEN_WALL as nat),
                        w,
                        h,
                    );
                },
                None => {
                    lemma_open_walls_keep(g, w, h, path, next + 1);
                },
            }
        }
    }
}

/// The pass leaves a fully connected maze fully connected, where every cell of
/// the path can be walked on.
pub proof fn lemma_open_walls_connected(
    g: Grid,
    w: int,
    h: int,
    sx: int,
    sy: int,
    path: Seq<(usize, usize)>,
    next: nat,
)
    requires
        maze_frame(g, w, h),
        w <= usize::MAX,
        h <= usize::MAX,
        path_inside(w, h, path),
        forall|i: int| 0 <= i < path.len() ==> cell_passable(g, w, h, #[trigger] path[i]),
        fully_connected(g, w, h, sx, sy),
    ensures
        fully_connected(open_walls_from(g, path, next), w, h, sx, sy),
    decreases places_left(path, next),
{
    if next >= path.len() {
    } else {
        let x = path[next as int].0 as int;
        let y = path[next as int].1 as int;
        if !far_from_exit(x, y, path.last().0 as int, path.last().1 as int) {
            lemma_open_walls_connected(g, w, h, sx, sy, path, next + 1);
        } else {
            lemma_opening_direction(g, x, y);
            match opening_direction(g, x, y) {
                Some(d) => {
                    let g1 = widened(g, x, y, d.0, d.1);
                    assert(cell_passable(g, w, h, path[next as int]));
                    lemma_widened(g, w, h, x, y, d.0, d.1);
                    lemma_widened_connected(g, w, h, sx, sy, x, y, d.0, d.1);
                    assert forall|i: int| 0 <= i < path.len() implies cell_passable(
                        g1,
                        w,
                        h,
                        #[trigger] path[i],
                    ) by {
                        assert(cell_passable(g, w, h, path[i]));
                        assert(at(g1, path[i].0 as int, path[i].1 as int).tile_type.passable());
                    }
                    lemma_open_walls_connected(
                        g1,
                        w,
                        h,
                        sx,
                        sy,
                        path,
                        next + NEXT_OPEN_WALL as nat,
                    );
                },
                None => {
                    lemma_open_walls_connected(g, w, h, sx, sy, path, next + 1);
                },
            }
        }
    }
}

/// The maze is a rectangle of `w` by `h` tiles, and no tile of its outer ring is
/// a standing wall: what the pass needs in order to stay inside the maze.
pub open spec fn ringed(g: Grid, w: int, h: int) -> bool {
    &&& is_grid(g, w, h)
    &&& forall|x: int, y: int|
        on_border(w, h, x, y) ==> (#[trigger] at(g, x, y)).tile_type != TileType::Wall
}

/// A maze in order is a rectangle without a standing wall on its outer ring.
pub proof fn lemma_frame_is_ringed(g: Grid, w: int, h: int)
    requires
        maze_frame(g, w, h),
    ensures
        ringed(g, w, h),
{
    reveal(maze_frame);
    assert forall|x: int, y: int| on_border(w, h, x, y) implies (#[trigger] at(g, x, y)).tile_type
        != TileType::Wall by {
        assert(tile_ok(w, h, x, y, at(g, x, y)));
    }
}

/// Opening a standing wall leaves a rectangle without a standing wall on its
/// outer ring as it is in that respect; the wall lies inside the ring.
pub proof fn lemma_wall_opened_ringed(g: Grid, w: int, h: int, x: int, y: int)
    requires
        ringed(g, w, h),
        in_grid(w, h, x, y),
        at(g, x, y).tile_type == TileType::Wall,
    ensures
        ringed(with_kind(g, x, y, TileType::Open), w, h),
        interior(w, h, x, y),
        at(with_kind(g, x, y, TileType::Open), x, y).tile_type == TileType::Open,
        forall|a: int, b: int|
            in_grid(w, h, a, b) && (a != x || b != y) ==> #[trigger] at(
                with_kind(g, x, y, TileType::Open),
                a,
                b,
            ) == at(g, a, b),
{
    let g2 = with_kind(g, x, y, TileType::Open);
    lemma_with_tile(g, w, h, x, y, MazeTile { tile_type: TileType::Open, ..at(g, x, y) });
    assert(!on_border(w, h, x, y));
    assert forall|a: int, b: int| on_border(w, h, a, b) implies (#[trigger] at(g2, a, b)).tile_type
        != TileType::Wall by {
        assert(at(g, a, b).tile_type != TileType::Wall);
        if a != x || b != y {
            assert(at(g2, a, b) == at(g, a, b));
        }
    }
}

/// Opening a wall beside an inner cell, and the wall behind it, stays inside the
/// maze and leaves its outer ring without a standing wall. Where the maze was
/// in order before, it is in order afterwards.
pub proof fn lemma_widened_ringed(g: Grid, w: int, h: int, x: int, y: int, dx: int, dy: int)
    requires
        ringed(g, w, h),
        interior(w, h, x, y),
        unit_step(dx, dy),
        at(g, x + dx, y + dy).tile_type == TileType::Wall,
    ensures
        ringed(widened(g, x, y, dx, dy), w, h),
        ringed(with_kind(g, x + dx, y + dy, TileType::Open), w, h),
        interior(w, h, x + dx, y + dy),
        in_grid(w, h, x + 2 * dx, y + 2 * dy),
        maze_frame(g, w, h) ==> maze_frame(widened(g, x, y, dx, dy), w, h),
{
    let g1 = with_kind(g, x + dx, y + dy, TileType::Open);
    lemma_wall_opened_ringed(g, w, h, x + dx, y + dy);
    if at(g1, x + 2 * dx, y + 2 * dy).tile_type == TileType::Wall {
        lemma_wall_opened_ringed(g1, w, h, x + 2 * dx, y + 2 * dy);
    }
    if maze_frame(g, w, h) {
        lemma_widened(g, w, h, x, y, dx, dy);
    }
}

} // verus!
