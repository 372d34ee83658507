//! What holds while the walk carves the maze, and why each step keeps it.

use vstd::arithmetic::div_mod::{lemma_fundamental_div_mod, lemma_fundamental_div_mod_converse};
use vstd::prelude::*;
use vstd::set_lib::{lemma_int_range, lemma_len_subset, set_int_range};
use crate::corridor::{
    cell_open, cell_taken_room, corridor, extends, lemma_corridor_cell, lemma_corridor_extends,
    lemma_reached_extends, lemma_with_tile, maze_frame, reached, straight_at, tile_ok, unit_step,
};
use crate::grid::{at, Grid, in_grid, interior, is_grid, is_room, odd_cell, on_border};
use crate::layout::{
    blank_grid, initial_grid, initial_tile, lemma_area_bound, lemma_cell_index_bound,
    valid_maze_size, with_kind, with_taken,
};
use crate::maze_tile::{MazeTile, TileType};

verus! {

/// (`sx`, `sy`) is a room, it holds the start, and no other cell does.
pub open spec fn start_at(g: Grid, w: int, h: int, sx: int, sy: int) -> bool {
    &&& is_room(w, h, sx, sy)
    &&& at(g, sx, sy).tile_type == TileType::Start
    &&& !at(g, sx, sy).can_be_used
    &&& forall|x: int, y: int|
        in_grid(w, h, x, y) && (x != sx || y != sy) ==> (#[trigger] at(g, x, y)).tile_type
            != TileType::Start
}

/// No cell holds the exit yet.
pub open spec fn no_exit(g: Grid, w: int, h: int) -> bool {
    forall|x: int, y: int|
        in_grid(w, h, x, y) ==> (#[trigger] at(g, x, y)).tile_type != TileType::Exit
}

/// The cell lies between two rooms that the walk has taken.
pub open spec fn between_taken(g: Grid, x: int, y: int) -> bool {
    ||| x % 2 == 0 && y % 2 == 1 && !at(g, x - 1, y).can_be_used && !at(g, x + 1, y).can_be_used
    ||| x % 2 == 1 && y % 2 == 0 && !at(g, x, y - 1).can_be_used && !at(g, x, y + 1).can_be_used
}

/// Every wall that has been opened lies between two rooms that the walk has
/// taken: the walls round a room that can still be used all stand.
pub open spec fn openings_between_taken(g: Grid, w: int, h: int) -> bool {
    forall|x: int, y: int|
        interior(w, h, x, y) && !odd_cell(x, y) && (#[trigger] at(g, x, y)).tile_type
            == TileType::Open ==> between_taken(g, x, y)
}

/// The path holds the cell (`x`, `y`).
pub open spec fn on_path(p: Seq<(usize, usize)>, x: int, y: int) -> bool {
    exists|i: int| 0 <= i < p.len() && (#[trigger] p[i]).0 == x && p[i].1 == y
}

/// The room two steps from (`x`, `y`) in the direction (`dx`, `dy`), if there is
/// one, has been taken.
pub open spec fn neighbour_taken(
    g: Grid,
    w: int,
    h: int,
    x: int,
    y: int,
    dx: int,
    dy: int,
) -> bool {
    is_room(w, h, x + 2 * dx, y + 2 * dy) ==> !at(g, x + 2 * dx, y + 2 * dy).can_be_used
}

/// Every room next to the room (`x`, `y`) has been taken.
pub open spec fn closed_room(g: Grid, w: int, h: int, x: int, y: int) -> bool {
    &&& neighbour_taken(g, w, h, x, y, 0, 1)
    &&& neighbour_taken(g, w, h, x, y, 0, -1)
    &&& neighbour_taken(g, w, h, x, y, 1, 0)
    &&& neighbour_taken(g, w, h, x, y, -1, 0)
}

/// Every taken room that the walk has left behind is closed.
pub open spec fn left_rooms_closed(g: Grid, w: int, h: int, stack: Seq<(usize, usize)>) -> bool {
    forall|x: int, y: int|
        is_room(w, h, x, y) && !at(g, x, y).can_be_used && !on_path(stack, x, y)
            ==> #[trigger] closed_room(g, w, h, x, y)
}

/// Every taken room is reached from the start by a corridor of at most `bound`
/// cells.
pub open spec fn taken_rooms_reached(
    g: Grid,
    w: int,
    h: int,
    sx: int,
    sy: int,
    bound: int,
) -> bool {
    forall|x: int, y: int|
        is_room(w, h, x, y) && !at(g, x, y).can_be_used ==> #[trigger] reached(
            g,
            w,
            h,
            sx,
            sy,
            x,
            y,
            bound,
        )
}

/// The path starts at (`sx`, `sy`).
pub open spec fn starts_at(p: Seq<(usize, usize)>, sx: int, sy: int) -> bool {
    p.len() > 0 && p[0].0 == sx && p[0].1 == sy
}

/// What holds while the walk carves: `stack` is the corridor from the start to
/// the walk's position, `best` the longest corridor that the stack has been.
#[verifier::opaque]
pub open spec fn carving(
    g: Grid,
    w: int,
    h: int,
    sx: int,
    sy: int,
    stack: Seq<(usize, usize)>,
    best: Seq<(usize, usize)>,
) -> bool {
    &&& maze_frame(g, w, h)
    &&& start_at(g, w, h, sx, sy)
    &&& no_exit(g, w, h)
    &&& openings_between_taken(g, w, h)
    &&& corridor(g, w, h, stack)
    &&& starts_at(stack, sx, sy)
    &&& corridor(g, w, h, best)
    &&& starts_at(best, sx, sy)
    &&& stack.len() <= best.len()
    &&& stack.no_duplicates()
    &&& best.no_duplicates()
    &&& taken_rooms_reached(g, w, h, sx, sy, best.len() as int)
    &&& left_rooms_closed(g, w, h, stack)
}

/// From (`x`, `y`) the walk can go in the direction (`dx`, `dy`): the cell one
/// step away is a standing wall and the cell behind it can still be used.
pub open spec fn open_direction(g: Grid, x: int, y: int, dx: int, dy: int) -> bool {
    at(g, x + dx, y + dy).tile_type == TileType::Wall && at(g, x + 2 * dx, y + 2 * dy).can_be_used
}

/// The wall and the room that lie in the direction (`dx`, `dy`) from (`x`, `y`):
/// the wall's coordinates, then the room's.
pub open spec fn direction_entry(x: int, y: int, dx: int, dy: int) -> (usize, usize, usize, usize) {
    ((x + dx) as usize, (y + dy) as usize, (x + 2 * dx) as usize, (y + 2 * dy) as usize)
}

/// The direction (`dx`, `dy`) from (`x`, `y`) as a list of one, if it is open, and
/// the empty list if it is not.
pub open spec fn direction_if_open(g: Grid, x: int, y: int, dx: int, dy: int) -> Seq<
    (usize, usize, usize, usize),
> {
    if open_direction(g, x, y, dx, dy) {
        seq![direction_entry(x, y, dx, dy)]
    } else {
        Seq::empty()
    }
}

/// The directions in which the walk can go from (`x`, `y`), in the order in
/// which they are tried: rising `y`, falling `y`, rising `x`, falling `x`.
pub open spec fn candidates(g: Grid, x: int, y: int) -> Seq<(usize, usize, usize, usize)> {
    direction_if_open(g, x, y, 0, 1) + direction_if_open(g, x, y, 0, -1) + direction_if_open(
        g,
        x,
        y,
        1,
        0,
    ) + direction_if_open(g, x, y, -1, 0)
}

/// The maze after the walk has gone through the wall `d.0, d.1` into the room
/// `d.2, d.3`.
pub open spec fn carved(g: Grid, d: (usize, usize, usize, usize)) -> Grid {
    with_taken(with_kind(g, d.0 as int, d.1 as int, TileType::Open), d.2 as int, d.3 as int)
}

/// The stack after the walk has gone through the wall into the room.
pub open spec fn pushed(stack: Seq<(usize, usize)>, d: (usize, usize, usize, usize)) -> Seq<
    (usize, usize),
> {
    stack.push((d.0, d.1)).push((d.2, d.3))
}

/// The longer of the two paths, the first where they are equally long.
pub open spec fn longer(best: Seq<(usize, usize)>, stack: Seq<(usize, usize)>) -> Seq<
    (usize, usize),
> {
    if stack.len() > best.len() {
        stack
    } else {
        best
    }
}

/// Each candidate is an open direction, one step along one axis.
pub proof fn lemma_candidate_is_open(g: Grid, x: int, y: int, k: int) -> (d: (int, int))
    requires
        0 <= k < candidates(g, x, y).len(),
    ensures
        unit_step(d.0, d.1),
        open_direction(g, x, y, d.0, d.1),
        candidates(g, x, y)[k] == direction_entry(x, y, d.0, d.1),
{
    let a = direction_if_open(g, x, y, 0, 1);
    let b = direction_if_open(g, x, y, 0, -1);
    let c = direction_if_open(g, x, y, 1, 0);
    let e = direction_if_open(g, x, y, -1, 0);
    if k < a.len() {
        (0, 1)
    } else if k < a.len() + b.len() {
        (0, -1)
    } else if k < a.len() + b.len() + c.len() {
        (1, 0)
    } else {
        (-1, 0)
    }
}

/// Where there is no candidate, no direction is open.
pub proof fn lemma_no_candidate(g: Grid, x: int, y: int)
    requires
        candidates(g, x, y).len() == 0,
    ensures
        forall|dx: int, dy: int| unit_step(dx, dy) ==> !#[trigger] open_direction(g, x, y, dx, dy),
{
    assert(direction_if_open(g, x, y, 0, 1).len() == 0);
    assert(direction_if_open(g, x, y, 0, -1).len() == 0);
    assert(direction_if_open(g, x, y, 1, 0).len() == 0);
    assert(direction_if_open(g, x, y, -1, 0).len() == 0);
}

/// The tiles of the maze after the walk has gone through a wall into a room:
/// the wall is open, the room is taken, and nothing else has changed.
pub proof fn lemma_carved_tiles(g: Grid, w: int, h: int, d: (usize, usize, usize, usize))
    requires
        is_grid(g, w, h),
        in_grid(w, h, d.0 as int, d.1 as int),
        in_grid(w, h, d.2 as int, d.3 as int),
        d.0 != d.2 || d.1 != d.3,
    ensures
        is_grid(carved(g, d), w, h),
        at(carved(g, d), d.0 as int, d.1 as int) == (MazeTile {
            tile_type: TileType::Open,
            ..at(g, d.0 as int, d.1 as int)
        }),
        at(carved(g, d), d.2 as int, d.3 as int) == (MazeTile {
            can_be_used: false,
            ..at(g, d.2 as int, d.3 as int)
        }),
        forall|x: int, y: int|
            in_grid(w, h, x, y) && (x != d.0 || y != d.1) && (x != d.2 || y != d.3)
                ==> #[trigger] at(carved(g, d), x, y) == at(g, x, y),
{
    let g1 = with_kind(g, d.0 as int, d.1 as int, TileType::Open);
    lemma_with_tile(
        g,
        w,
        h,
        d.0 as int,
        d.1 as int,
        MazeTile { tile_type: TileType::Open, ..at(g, d.0 as int, d.1 as int) },
    );
    lemma_with_tile(
        g1,
        w,
        h,
        d.2 as int,
        d.3 as int,
        MazeTile { can_be_used: false, ..at(g1, d.2 as int, d.3 as int) },
    );
    assert(at(g1, d.2 as int, d.3 as int) == at(g, d.2 as int, d.3 as int));
    assert forall|x: int, y: int|
        in_grid(w, h, x, y) && (x != d.0 || y != d.1) && (x != d.2 || y != d.3)
            implies #[trigger] at(carved(g, d), x, y) == at(g, x, y) by {
        assert(at(g1, x, y) == at(g, x, y));
    }
}

/// The cells of an open direction at the walk's position: the position is a
/// taken room, the cell one step away an inner wall between two rooms, and the
/// cell behind it a room.
pub proof fn lemma_direction_cells(
    g: Grid,
    w: int,
    h: int,
    p: Seq<(usize, usize)>,
    dx: int,
    dy: int,
)
    requires
        maze_frame(g, w, h),
        corridor(g, w, h, p),
        unit_step(dx, dy),
    ensures
        is_room(w, h, p.last().0 as int, p.last().1 as int),
        !at(g, p.last().0 as int, p.last().1 as int).can_be_used,
        in_grid(w, h, p.last().0 + dx, p.last().1 + dy),
        !odd_cell(p.last().0 + dx, p.last().1 + dy),
        at(g, p.last().0 + dx, p.last().1 + dy).tile_type == TileType::Wall ==> interior(
            w,
            h,
            p.last().0 + dx,
            p.last().1 + dy,
        ) && in_grid(w, h, p.last().0 + 2 * dx, p.last().1 + 2 * dy),
        open_direction(g, p.last().0 as int, p.last().1 as int, dx, dy) ==> is_room(
            w,
            h,
            p.last().0 + 2 * dx,
            p.last().1 + 2 * dy,
        ),
{
    reveal(maze_frame);
    let n = p.len() as int;
    let x = p.last().0 as int;
    let y = p.last().1 as int;
    assert(p[n - 1] == p.last());
    assert(cell_open(g, w, h, p[n - 1]));
    assert(cell_taken_room(g, p[n - 1]));
    assert(tile_ok(w, h, x + dx, y + dy, at(g, x + dx, y + dy)));
    if at(g, x + dx, y + dy).tile_type == TileType::Wall {
        assert(!on_border(w, h, x + dx, y + dy));
        assert(tile_ok(w, h, x + 2 * dx, y + 2 * dy, at(g, x + 2 * dx, y + 2 * dy)));
    }
}

/// The walk stands on the taken room (`x`, `y`) of a maze in order, and the
/// direction (`dx`, `dy`) is open there.
pub open spec fn can_go(g: Grid, w: int, h: int, x: int, y: int, dx: int, dy: int) -> bool {
    &&& maze_frame(g, w, h)
    &&& w <= usize::MAX
    &&& h <= usize::MAX
    &&& is_room(w, h, x, y)
    &&& !at(g, x, y).can_be_used
    &&& unit_step(dx, dy)
    &&& open_direction(g, x, y, dx, dy)
}

/// What going through an open direction changes: the wall is an inner cell
/// between two rooms and is opened, the room behind it is taken, and every other
/// tile stays as it is.
pub proof fn lemma_going(g: Grid, w: int, h: int, x: int, y: int, dx: int, dy: int)
    requires
        can_go(g, w, h, x, y, dx, dy),
    ensures
        ({
            let d = direction_entry(x, y, dx, dy);
            let g2 = carved(g, d);
            &&& d.0 == x + dx && d.1 == y + dy && d.2 == x + 2 * dx && d.3 == y + 2 * dy
            &&& interior(w, h, x + dx, y + dy) && !odd_cell(x + dx, y + dy)
            &&& is_room(w, h, x + 2 * dx, y + 2 * dy)
            &&& at(g, x + dx, y + dy).tile_type == TileType::Wall
            &&& !at(g, x + dx, y + dy).can_be_used
            &&& at(g, x + 2 * dx, y + 2 * dy).tile_type == TileType::Open
            &&& at(g, x + 2 * dx, y + 2 * dy).can_be_used
            &&& is_grid(g2, w, h)
            &&& at(g2, x + dx, y + dy) == (MazeTile {
                tile_type: TileType::Open,
                ..at(g, x + dx, y + dy)
            })
            &&& at(g2, x + 2 * dx, y + 2 * dy) == (MazeTile {
                can_be_used: false,
                ..at(g, x + 2 * dx, y + 2 * dy)
            })
            &&& forall|a: int, b: int|
                in_grid(w, h, a, b) && (a != x + dx || b != y + dy) && (a != x + 2 * dx || b != y
                    + 2 * dy) ==> #[trigger] at(g2, a, b) == at(g, a, b)
            &&& extends(g, g2, w, h)
        }),
{
    reveal(maze_frame);
    let d = direction_entry(x, y, dx, dy);
    let g2 = carved(g, d);
    let wx = x + dx;
    let wy = y + dy;
    let nx = x + 2 * dx;
    let ny = y + 2 * dy;
    assert(tile_ok(w, h, wx, wy, at(g, wx, wy)));
    assert(!on_border(w, h, wx, wy));
    assert(tile_ok(w, h, nx, ny, at(g, nx, ny)));
    lemma_carved_tiles(g, w, h, d);
    assert forall|a: int, b: int| in_grid(w, h, a, b) implies {
        &&& at(g, a, b).tile_type.passable() ==> (#[trigger] at(g2, a, b)).tile_type.passable()
        &&& !at(g, a, b).can_be_used ==> !at(g2, a, b).can_be_used
    } by {
        if (a == wx && b == wy) || (a == nx && b == ny) {
        } else {
            assert(at(g2, a, b) == at(g, a, b));
        }
    }
}

/// Going through an open direction leaves every tile in order, the start where
/// it is, and the maze without an exit.
pub proof fn lemma_going_keeps_frame(
    g: Grid,
    w: int,
    h: int,
    sx: int,
    sy: int,
    x: int,
    y: int,
    dx: int,
    dy: int,
)
    requires
        can_go(g, w, h, x, y, dx, dy),
        start_at(g, w, h, sx, sy),
        no_exit(g, w, h),
    ensures
        maze_frame(carved(g, direction_entry(x, y, dx, dy)), w, h),
        start_at(carved(g, direction_entry(x, y, dx, dy)), w, h, sx, sy),
        no_exit(carved(g, direction_entry(x, y, dx, dy)), w, h),
{
    reveal(maze_frame);
    let g2 = carved(g, direction_entry(x, y, dx, dy));
    let wx = x + dx;
    let wy = y + dy;
    let nx = x + 2 * dx;
    let ny = y + 2 * dy;
    lemma_going(g, w, h, x, y, dx, dy);
    assert(maze_frame(g2, w, h)) by {
        assert forall|a: int, b: int| in_grid(w, h, a, b) implies tile_ok(
            w,
            h,
            a,
            b,
            #[trigger] at(g2, a, b),
        ) by {
            assert(tile_ok(w, h, a, b, at(g, a, b)));
            if (a == wx && b == wy) || (a == nx && b == ny) {
            } else {
                assert(at(g2, a, b) == at(g, a, b));
            }
        }
    }
    assert(start_at(g2, w, h, sx, sy)) by {
        assert(at(g2, sx, sy) == at(g, sx, sy));
        assert forall|a: int, b: int|
            in_grid(w, h, a, b) && (a != sx || b != sy) implies (#[trigger] at(g2, a, b)).tile_type
            != TileType::Start by {
            assert(at(g, a, b).tile_type != TileType::Start);
            if (a == wx && b == wy) || (a == nx && b == ny) {
            } else {
                assert(at(g2, a, b) == at(g, a, b));
            }
        }
    }
    assert(no_exit(g2, w, h)) by {
        assert forall|a: int, b: int| in_grid(w, h, a, b) implies (#[trigger] at(
            g2,
            a,
            b,
        )).tile_type != TileType::Exit by {
            assert(at(g, a, b).tile_type != TileType::Exit);
            if (a == wx && b == wy) || (a == nx && b == ny) {
            } else {
                assert(at(g2, a, b) == at(g, a, b));
            }
        }
    }
}

/// After going through an open direction, every opened wall still lies between
/// two taken rooms.
pub proof fn lemma_going_keeps_openings(
    g: Grid,
    w: int,
    h: int,
    x: int,
    y: int,
    dx: int,
    dy: int,
)
    requires
        can_go(g, w, h, x, y, dx, dy),
        openings_between_taken(g, w, h),
    ensures
        openings_between_taken(carved(g, direction_entry(x, y, dx, dy)), w, h),
{
    let g2 = carved(g, direction_entry(x, y, dx, dy));
    let wx = x + dx;
    let wy = y + dy;
    let nx = x + 2 * dx;
    let ny = y + 2 * dy;
    lemma_going(g, w, h, x, y, dx, dy);
    assert forall|a: int, b: int|
        interior(w, h, a, b) && !odd_cell(a, b) && (#[trigger] at(g2, a, b)).tile_type
            == TileType::Open implies between_taken(g2, a, b) by {
        if a == wx && b == wy {
            assert(!at(g2, nx, ny).can_be_used);
            assert(!at(g2, x, y).can_be_used);
        } else {
            assert(at(g2, a, b) == at(g, a, b));
            assert(between_taken(g, a, b));
            assert(!at(g, a - 1, b).can_be_used ==> !at(g2, a - 1, b).can_be_used);
            assert(!at(g, a + 1, b).can_be_used ==> !at(g2, a + 1, b).can_be_used);
            assert(!at(g, a, b - 1).can_be_used ==> !at(g2, a, b - 1).can_be_used);
            assert(!at(g, a, b + 1).can_be_used ==> !at(g2, a, b + 1).can_be_used);
        }
    }
}

/// After going through an open direction from the end of the stack, the longer
/// stack is a corridor of the new maze, it still starts at the start, and no cell
/// occurs twice in it.
pub proof fn lemma_going_keeps_stack(
    g: Grid,
    w: int,
    h: int,
    stack: Seq<(usize, usize)>,
    dx: int,
    dy: int,
)
    requires
        corridor(g, w, h, stack),
        stack.no_duplicates(),
        can_go(g, w, h, stack.last().0 as int, stack.last().1 as int, dx, dy),
    ensures
        ({
            let d = direction_entry(stack.last().0 as int, stack.last().1 as int, dx, dy);
            &&& corridor(carved(g, d), w, h, pushed(stack, d))
            &&& pushed(stack, d).no_duplicates()
            &&& pushed(stack, d)[0] == stack[0]
            &&& pushed(stack, d).len() == stack.len() + 2
        }),
{
    let x = stack.last().0 as int;
    let y = stack.last().1 as int;
    let d = direction_entry(x, y, dx, dy);
    let g2 = carved(g, d);
    let stack2 = pushed(stack, d);
    let n = stack.len() as int;
    lemma_going(g, w, h, x, y, dx, dy);
    assert(stack2.len() == n + 2);
    assert forall|i: int| 0 <= i < stack2.len() implies cell_open(
        g2,
        w,
        h,
        #[trigger] stack2[i],
    ) by {
        if i < n {
            assert(stack2[i] == stack[i]);
            assert(cell_open(g, w, h, stack[i]));
            assert(at(g2, stack[i].0 as int, stack[i].1 as int).tile_type.passable());
        }
    }
    assert forall|i: int| 0 <= i < stack2.len() && i % 2 == 0 implies cell_taken_room(
        g2,
        #[trigger] stack2[i],
    ) by {
        if i < n {
            assert(stack2[i] == stack[i]);
            assert(cell_taken_room(g, stack[i]));
            assert(cell_open(g, w, h, stack[i]));
            assert(!at(g2, stack[i].0 as int, stack[i].1 as int).can_be_used);
        }
    }
    assert forall|i: int| 0 < i < stack2.len() && i % 2 == 1 implies #[trigger] straight_at(
        stack2,
        i,
    ) by {
        if i < n {
            assert(straight_at(stack, i));
            assert(stack2[i - 1] == stack[i - 1]);
            assert(stack2[i] == stack[i]);
            assert(stack2[i + 1] == stack[i + 1]);
        } else {
            assert(i == n);
            assert(stack2[n - 1] == stack.last());
        }
    }
    assert forall|i: int, j: int|
        0 <= i < stack2.len() && 0 <= j < stack2.len() && i != j implies stack2[i] != stack2[j] by {
        if i < n {
            assert(stack2[i] == stack[i]);
            lemma_corridor_cell(g, w, h, stack, i);
        }
        if j < n {
            assert(stack2[j] == stack[j]);
            lemma_corridor_cell(g, w, h, stack, j);
        }
    }
}

/// After going through an open direction, every taken room is reached from the
/// start by a corridor that is no longer than the longer of the old longest
/// corridor and the new stack.
pub proof fn lemma_going_keeps_reached(
    g: Grid,
    w: int,
    h: int,
    sx: int,
    sy: int,
    stack: Seq<(usize, usize)>,
    bound: int,
    dx: int,
    dy: int,
)
    requires
        corridor(g, w, h, stack),
        stack.no_duplicates(),
        starts_at(stack, sx, sy),
        can_go(g, w, h, stack.last().0 as int, stack.last().1 as int, dx, dy),
        taken_rooms_reached(g, w, h, sx, sy, bound),
    ensures
        ({
            let d = direction_entry(stack.last().0 as int, stack.last().1 as int, dx, dy);
            let bound2 = if stack.len() + 2 > bound {
                stack.len() as int + 2
            } else {
                bound
            };
            taken_rooms_reached(carved(g, d), w, h, sx, sy, bound2)
        }),
{
    let x = stack.last().0 as int;
    let y = stack.last().1 as int;
    let d = direction_entry(x, y, dx, dy);
    let g2 = carved(g, d);
    let stack2 = pushed(stack, d);
    let bound2 = if stack.len() + 2 > bound {
        stack.len() as int + 2
    } else {
        bound
    };
    lemma_going(g, w, h, x, y, dx, dy);
    lemma_going_keeps_stack(g, w, h, stack, dx, dy);
    assert forall|a: int, b: int|
        is_room(w, h, a, b) && !at(g2, a, b).can_be_used implies #[trigger] reached(
        g2,
        w,
        h,
        sx,
        sy,
        a,
        b,
        bound2,
    ) by {
        if a == x + 2 * dx && b == y + 2 * dy {
            assert(stack2.last() == (d.2, d.3));
            assert(corridor(g2, w, h, stack2));
        } else {
            assert(at(g2, a, b) == at(g, a, b));
            assert(reached(g, w, h, sx, sy, a, b, bound));
            lemma_reached_extends(g, g2, w, h, sx, sy, a, b, bound, bound2);
        }
    }
}

/// After going through an open direction, every taken room that is not on the
/// longer stack is still closed.
pub proof fn lemma_going_keeps_closed(
    g: Grid,
    w: int,
    h: int,
    stack: Seq<(usize, usize)>,
    dx: int,
    dy: int,
)
    requires
        can_go(g, w, h, stack.last().0 as int, stack.last().1 as int, dx, dy),
        stack.len() > 0,
        left_rooms_closed(g, w, h, stack),
    ensures
        ({
            let d = direction_entry(stack.last().0 as int, stack.last().1 as int, dx, dy);
            left_rooms_closed(carved(g, d), w, h, pushed(stack, d))
        }),
{
    let x = stack.last().0 as int;
    let y = stack.last().1 as int;
    let d = direction_entry(x, y, dx, dy);
    let g2 = carved(g, d);
    let stack2 = pushed(stack, d);
    let n = stack.len() as int;
    lemma_going(g, w, h, x, y, dx, dy);
    assert forall|a: int, b: int|
        is_room(w, h, a, b) && !at(g2, a, b).can_be_used && !on_path(
            stack2,
            a,
            b,
        ) implies #[trigger] closed_room(g2, w, h, a, b) by {
        if a == x + 2 * dx && b == y + 2 * dy {
            assert(stack2[n + 1].0 == a && stack2[n + 1].1 == b);
            assert(on_path(stack2, a, b));
        } else {
            assert(at(g2, a, b) == at(g, a, b));
            if on_path(stack, a, b) {
                let i = choose|i: int|
                    0 <= i < stack.len() && (#[trigger] stack[i]).0 == a && stack[i].1 == b;
                assert(stack2[i] == stack[i]);
                assert(on_path(stack2, a, b));
            }
            assert(closed_room(g, w, h, a, b));
            lemma_closed_extends(g, g2, w, h, a, b);
        }
    }
}

/// Going through an open direction keeps what holds while the walk carves.
pub proof fn lemma_carve_step(
    g: Grid,
    w: int,
    h: int,
    sx: int,
    sy: int,
    stack: Seq<(usize, usize)>,
    best: Seq<(usize, usize)>,
    dx: int,
    dy: int,
)
    requires
        carving(g, w, h, sx, sy, stack, best),
        unit_step(dx, dy),
        open_direction(g, stack.last().0 as int, stack.last().1 as int, dx, dy),
        w <= usize::MAX,
        h <= usize::MAX,
    ensures
        ({
            let d = direction_entry(stack.last().0 as int, stack.last().1 as int, dx, dy);
            carving(carved(g, d), w, h, sx, sy, pushed(stack, d), longer(best, pushed(stack, d)))
        }),
{
    reveal(carving);
    let x = stack.last().0 as int;
    let y = stack.last().1 as int;
    let d = direction_entry(x, y, dx, dy);
    let g2 = carved(g, d);
    lemma_direction_cells(g, w, h, stack, dx, dy);
    assert(can_go(g, w, h, x, y, dx, dy));
    lemma_going(g, w, h, x, y, dx, dy);
    lemma_going_keeps_frame(g, w, h, sx, sy, x, y, dx, dy);
    lemma_going_keeps_openings(g, w, h, x, y, dx, dy);
    lemma_going_keeps_stack(g, w, h, stack, dx, dy);
    lemma_going_keeps_reached(g, w, h, sx, sy, stack, best.len() as int, dx, dy);
    lemma_going_keeps_closed(g, w, h, stack, dx, dy);
    lemma_corridor_extends(g, g2, w, h, best);
}

/// A closed room stays closed when cells are opened or taken.
pub proof fn lemma_closed_extends(g: Grid, g2: Grid, w: int, h: int, x: int, y: int)
    requires
        closed_room(g, w, h, x, y),
        extends(g, g2, w, h),
    ensures
        closed_room(g2, w, h, x, y),
{
    assert forall|dx: int, dy: int| unit_step(dx, dy) implies #[trigger] neighbour_taken(
        g2,
        w,
        h,
        x,
        y,
        dx,
        dy,
    ) by {
        assert(neighbour_taken(g, w, h, x, y, dx, dy));
        if is_room(w, h, x + 2 * dx, y + 2 * dy) {
            assert(!at(g2, x + 2 * dx, y + 2 * dy).can_be_used);
        }
    }
    assert(unit_step(0, 1) && unit_step(0, -1) && unit_step(1, 0) && unit_step(-1, 0));
}

/// No direction is open at (`x`, `y`).
pub open spec fn dead_end(g: Grid, x: int, y: int) -> bool {
    forall|dx: int, dy: int| unit_step(dx, dy) ==> !#[trigger] open_direction(g, x, y, dx, dy)
}

/// A taken room at which no direction is open is closed.
pub proof fn lemma_dead_end_closed(g: Grid, w: int, h: int, x: int, y: int)
    requires
        maze_frame(g, w, h),
        openings_between_taken(g, w, h),
        is_room(w, h, x, y),
        dead_end(g, x, y),
    ensures
        closed_room(g, w, h, x, y),
{
    reveal(maze_frame);
    assert forall|dx: int, dy: int| unit_step(dx, dy) implies #[trigger] neighbour_taken(
        g,
        w,
        h,
        x,
        y,
        dx,
        dy,
    ) by {
        if is_room(w, h, x + 2 * dx, y + 2 * dy) && at(g, x + 2 * dx, y + 2 * dy).can_be_used {
            assert(!open_direction(g, x, y, dx, dy));
            assert(tile_ok(w, h, x + dx, y + dy, at(g, x + dx, y + dy)));
            assert(interior(w, h, x + dx, y + dy) && !odd_cell(x + dx, y + dy));
            assert(at(g, x + dx, y + dy).tile_type == TileType::Open);
            assert(between_taken(g, x + dx, y + dy));
            assert(false);
        }
    }
    assert(unit_step(0, 1) && unit_step(0, -1) && unit_step(1, 0) && unit_step(-1, 0));
}

/// The stack after the walk has stepped back from a dead end: without its last
/// room and the wall before it.
pub open spec fn popped(stack: Seq<(usize, usize)>) -> Seq<(usize, usize)> {
    stack.subrange(0, stack.len() - 2)
}

/// Stepping back from a dead end keeps what holds while the walk carves.
pub proof fn lemma_backtrack(
    g: Grid,
    w: int,
    h: int,
    sx: int,
    sy: int,
    stack: Seq<(usize, usize)>,
    best: Seq<(usize, usize)>,
)
    requires
        carving(g, w, h, sx, sy, stack, best),
        stack.len() > 1,
        dead_end(g, stack.last().0 as int, stack.last().1 as int),
    ensures
        carving(g, w, h, sx, sy, popped(stack), best),
{
    reveal(carving);
    let n = stack.len() as int;
    let stack2 = popped(stack);
    let x = stack.last().0 as int;
    let y = stack.last().1 as int;
    assert(n >= 3);
    assert(stack2.len() == n - 2);
    lemma_direction_cells(g, w, h, stack, 0, 1);
    lemma_dead_end_closed(g, w, h, x, y);
    assert(corridor(g, w, h, stack2)) by {
        assert forall|i: int| 0 <= i < stack2.len() implies cell_open(
            g,
            w,
            h,
            #[trigger] stack2[i],
        ) by {
            assert(stack2[i] == stack[i]);
            assert(cell_open(g, w, h, stack[i]));
        }
        assert forall|i: int| 0 <= i < stack2.len() && i % 2 == 0 implies cell_taken_room(
            g,
            #[trigger] stack2[i],
        ) by {
            assert(stack2[i] == stack[i]);
            assert(cell_taken_room(g, stack[i]));
        }
        assert forall|i: int| 0 < i < stack2.len() && i % 2 == 1 implies #[trigger] straight_at(
            stack2,
            i,
        ) by {
            assert(straight_at(stack, i));
            assert(stack2[i - 1] == stack[i - 1]);
            assert(stack2[i] == stack[i]);
            assert(stack2[i + 1] == stack[i + 1]);
        }
    }
    assert(starts_at(stack2, sx, sy)) by {
        assert(stack2[0] == stack[0]);
    }
    assert(stack2.no_duplicates()) by {
        assert forall|i: int, j: int|
            0 <= i < stack2.len() && 0 <= j < stack2.len() && i != j implies stack2[i]
            != stack2[j] by {
            assert(stack2[i] == stack[i]);
            assert(stack2[j] == stack[j]);
        }
    }
    assert(left_rooms_closed(g, w, h, stack2)) by {
        assert forall|a: int, b: int|
            is_room(w, h, a, b) && !at(g, a, b).can_be_used && !on_path(
                stack2,
                a,
                b,
            ) implies #[trigger] closed_room(g, w, h, a, b) by {
            if on_path(stack, a, b) {
                let i = choose|i: int|
                    0 <= i < stack.len() && (#[trigger] stack[i]).0 == a && stack[i].1 == b;
                if i < n - 2 {
                    assert(stack2[i] == stack[i]);
                    assert(on_path(stack2, a, b));
                } else if i == n - 2 {
                    assert(straight_at(stack, n - 2));
                    assert(cell_taken_room(g, stack[n - 3]));
                    assert(false);
                } else {
                    assert(stack[i] == stack.last());
                }
            }
        }
    }
}

/// Every taken room is closed.
pub open spec fn taken_rooms_closed(g: Grid, w: int, h: int) -> bool {
    forall|x: int, y: int|
        is_room(w, h, x, y) && !at(g, x, y).can_be_used ==> #[trigger] closed_room(g, w, h, x, y)
}

/// Where every taken room is closed and the start is taken, every room is taken.
pub proof fn lemma_closed_rooms_cover(g: Grid, w: int, h: int, sx: int, sy: int, x: int, y: int)
    requires
        is_room(w, h, sx, sy),
        !at(g, sx, sy).can_be_used,
        taken_rooms_closed(g, w, h),
        is_room(w, h, x, y),
    ensures
        !at(g, x, y).can_be_used,
    decreases (if x >= sx { x - sx } else { sx - x }) + (if y >= sy { y - sy } else { sy - y }),
{
    if x > sx {
        lemma_closed_rooms_cover(g, w, h, sx, sy, x - 2, y);
        assert(closed_room(g, w, h, x - 2, y));
        assert(neighbour_taken(g, w, h, x - 2, y, 1, 0));
    } else if x < sx {
        lemma_closed_rooms_cover(g, w, h, sx, sy, x + 2, y);
        assert(closed_room(g, w, h, x + 2, y));
        assert(neighbour_taken(g, w, h, x + 2, y, -1, 0));
    } else if y > sy {
        lemma_closed_rooms_cover(g, w, h, sx, sy, x, y - 2);
        assert(closed_room(g, w, h, x, y - 2));
        assert(neighbour_taken(g, w, h, x, y - 2, 0, 1));
    } else if y < sy {
        lemma_closed_rooms_cover(g, w, h, sx, sy, x, y + 2);
        assert(closed_room(g, w, h, x, y + 2));
        assert(neighbour_taken(g, w, h, x, y + 2, 0, -1));
    }
}

/// No cell of the maze can still be used.
pub open spec fn all_taken(g: Grid, w: int, h: int) -> bool {
    forall|x: int, y: int| in_grid(w, h, x, y) ==> !(#[trigger] at(g, x, y)).can_be_used
}

/// What holds of a maze when the walk has ended: every tile is in order, the
/// start stands on the first cell of the solution, every opened wall lies
/// between two rooms, no cell can still be used, and every room is reached from
/// the start by a corridor that is no longer than the solution.
pub open spec fn carved_out(
    g: Grid,
    w: int,
    h: int,
    sx: int,
    sy: int,
    best: Seq<(usize, usize)>,
) -> bool {
    &&& maze_frame(g, w, h)
    &&& start_at(g, w, h, sx, sy)
    &&& no_exit(g, w, h)
    &&& openings_between_taken(g, w, h)
    &&& corridor(g, w, h, best)
    &&& starts_at(best, sx, sy)
    &&& best.no_duplicates()
    &&& all_taken(g, w, h)
    &&& forall|x: int, y: int|
        is_room(w, h, x, y) ==> #[trigger] reached(g, w, h, sx, sy, x, y, best.len() as int)
}

/// When the walk is back at the start and no direction is open there, it has
/// taken every room.
pub proof fn lemma_walk_ends(
    g: Grid,
    w: int,
    h: int,
    sx: int,
    sy: int,
    stack: Seq<(usize, usize)>,
    best: Seq<(usize, usize)>,
)
    requires
        carving(g, w, h, sx, sy, stack, best),
        stack.len() == 1,
        dead_end(g, sx, sy),
    ensures
        carved_out(g, w, h, sx, sy, best),
{
    reveal(carving);
    reveal(maze_frame);
    lemma_dead_end_closed(g, w, h, sx, sy);
    assert(taken_rooms_closed(g, w, h)) by {
        assert forall|a: int, b: int|
            is_room(w, h, a, b) && !at(g, a, b).can_be_used implies #[trigger] closed_room(
            g,
            w,
            h,
            a,
            b,
        ) by {
            if on_path(stack, a, b) {
                let i = choose|i: int|
                    0 <= i < stack.len() && (#[trigger] stack[i]).0 == a && stack[i].1 == b;
                assert(i == 0);
            }
        }
    }
    assert(all_taken(g, w, h)) by {
        assert forall|x: int, y: int| in_grid(w, h, x, y) implies !(#[trigger] at(
            g,
            x,
            y,
        )).can_be_used by {
            assert(tile_ok(w, h, x, y, at(g, x, y)));
            if is_room(w, h, x, y) {
                lemma_closed_rooms_cover(g, w, h, sx, sy, x, y);
            }
        }
    }
    assert forall|x: int, y: int| is_room(w, h, x, y) implies #[trigger] reached(
        g,
        w,
        h,
        sx,
        sy,
        x,
        y,
        best.len() as int,
    ) by {
        assert(!at(g, x, y).can_be_used);
    }
}

/// The blank maze with the start placed on a room is a maze in which the walk
/// can begin: its stack and its longest corridor both hold the start alone.
pub proof fn lemma_walk_begins(w: int, h: int, sx: int, sy: int)
    requires
        valid_maze_size(w, h),
        is_room(w, h, sx, sy),
    ensures
        is_grid(initial_grid(w, h, sx, sy), w, h),
        carving(
            initial_grid(w, h, sx, sy),
            w,
            h,
            sx,
            sy,
            seq![(sx as usize, sy as usize)],
            seq![(sx as usize, sy as usize)],
        ),
{
    reveal(carving);
    reveal(maze_frame);
    let blank = blank_grid(w, h);
    let g = initial_grid(w, h, sx, sy);
    let path = seq![(sx as usize, sy as usize)];
    assert(is_grid(blank, w, h)) by {
        assert forall|y: int| 0 <= y < h implies (#[trigger] blank[y]).len() == w by {}
    }
    let started = MazeTile { tile_type: TileType::Start, ..at(blank, sx, sy) };
    lemma_with_tile(blank, w, h, sx, sy, started);
    let g1 = with_kind(blank, sx, sy, TileType::Start);
    lemma_with_tile(g1, w, h, sx, sy, MazeTile { can_be_used: false, ..at(g1, sx, sy) });
    assert forall|x: int, y: int| in_grid(w, h, x, y) implies #[trigger] at(g, x, y) == (if x == sx
        && y == sy {
        MazeTile { tile_type: TileType::Start, can_be_used: false, ..initial_tile(w, h, x, y) }
    } else {
        initial_tile(w, h, x, y)
    }) by {
        assert(at(blank, x, y) == initial_tile(w, h, x, y));
        if x != sx || y != sy {
            assert(at(g1, x, y) == at(blank, x, y));
        }
    }
    lemma_area_bound(w, h);
    assert(maze_frame(g, w, h)) by {
        assert forall|x: int, y: int| in_grid(w, h, x, y) implies tile_ok(
            w,
            h,
            x,
            y,
            #[trigger] at(g, x, y),
        ) by {
            lemma_cell_index_bound(w, h, x, y);
        }
    }
    assert(cell_open(g, w, h, path[0]));
    assert(cell_taken_room(g, path[0]));
    assert(corridor(g, w, h, path));
    assert(taken_rooms_reached(g, w, h, sx, sy, 1)) by {
        assert forall|x: int, y: int|
            is_room(w, h, x, y) && !at(g, x, y).can_be_used implies #[trigger] reached(
            g,
            w,
            h,
            sx,
            sy,
            x,
            y,
            1,
        ) by {
            assert(x == sx && y == sy);
            assert(path.last() == path[0]);
        }
    }
    assert(left_rooms_closed(g, w, h, path)) by {
        assert forall|x: int, y: int|
            is_room(w, h, x, y) && !at(g, x, y).can_be_used && !on_path(
                path,
                x,
                y,
            ) implies #[trigger] closed_room(g, w, h, x, y) by {
            assert(x == sx && y == sy);
            assert(path[0].0 == x && path[0].1 == y);
        }
    }
}

/// The cells that can still be used, each named by its place in scan order
/// counted from 0.
pub open spec fn usable_cells(g: Grid, w: int, h: int) -> Set<int> {
    Set::new(|i: int| 0 <= i < w * h && usable_place(g, w, i))
}

/// The cell at place `i` in scan order, counted from 0, can still be used.
pub open spec fn usable_place(g: Grid, w: int, i: int) -> bool {
    at(g, i % w, i / w).can_be_used
}

/// There are finitely many usable cells, and no more than the maze has cells.
pub proof fn lemma_usable_cells_bound(g: Grid, w: int, h: int)
    requires
        w > 0,
        h > 0,
    ensures
        usable_cells(g, w, h).finite(),
        usable_cells(g, w, h).len() <= w * h,
{
    assert(0 <= w * h) by (nonlinear_arith)
        requires
            w > 0,
            h > 0,
    ;
    lemma_int_range(0, w * h);
    assert(usable_cells(g, w, h).subset_of(set_int_range(0, w * h)));
    lemma_len_subset(usable_cells(g, w, h), set_int_range(0, w * h));
}

/// A place in scan order names one cell of the maze, and each cell has one place.
pub proof fn lemma_scan_place(w: int, h: int, i: int)
    requires
        w > 0,
        h > 0,
        0 <= i < w * h,
    ensures
        in_grid(w, h, i % w, i / w),
        i == (i / w) * w + i % w,
{
    lemma_fundamental_div_mod(i, w);
    assert((i / w) * w == w * (i / w)) by (nonlinear_arith);
    assert(0 <= i % w < w);
    assert(0 <= i / w < h) by (nonlinear_arith)
        requires
            0 <= i < w * h,
            w > 0,
            i == w * (i / w) + i % w,
            0 <= i % w < w,
    ;
}

/// Going through a wall into a room takes that room, and no other cell, out of
/// the cells that can still be used.
pub proof fn lemma_usable_after_carve(g: Grid, w: int, h: int, d: (usize, usize, usize, usize))
    requires
        w > 0,
        h > 0,
        is_grid(g, w, h),
        in_grid(w, h, d.0 as int, d.1 as int),
        in_grid(w, h, d.2 as int, d.3 as int),
        d.0 != d.2 || d.1 != d.3,
        !at(g, d.0 as int, d.1 as int).can_be_used,
        at(g, d.2 as int, d.3 as int).can_be_used,
    ensures
        usable_cells(g, w, h).finite(),
        usable_cells(carved(g, d), w, h).finite(),
        usable_cells(carved(g, d), w, h).len() + 1 == usable_cells(g, w, h).len(),
{
    let g2 = carved(g, d);
    let nx = d.2 as int;
    let ny = d.3 as int;
    let place = ny * w + nx;
    lemma_carved_tiles(g, w, h, d);
    lemma_usable_cells_bound(g, w, h);
    lemma_usable_cells_bound(g2, w, h);
    lemma_cell_index_bound(w, h, nx, ny);
    lemma_fundamental_div_mod_converse(place, w, ny, nx);
    assert(usable_cells(g, w, h).contains(place));
    assert(usable_cells(g2, w, h) =~= usable_cells(g, w, h).remove(place)) by {
        assert forall|i: int| 0 <= i < w * h implies (#[trigger] usable_place(g2, w, i) <==> (i
            != place && usable_place(g, w, i))) by {
            lemma_scan_place(w, h, i);
            if i % w == nx && i / w == ny {
            } else if i % w == d.0 && i / w == d.1 {
            } else {
                assert(at(g2, i % w, i / w) == at(g, i % w, i / w));
            }
        }
    }
}

} // verus!
