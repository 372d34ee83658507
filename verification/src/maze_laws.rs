//! What holds of every maze that generation yields.

use vstd::arithmetic::div_mod::{lemma_fundamental_div_mod, lemma_fundamental_div_mod_converse};
use vstd::prelude::*;
use crate::carve::{
    candidates, carved_out, carving, lemma_no_candidate, lemma_usable_cells_bound,
    lemma_walk_begins, lemma_walk_ends, popped, usable_cells,
};
use crate::connect::{adjacent, connected, lemma_corridor_is_walk, step_at};
use crate::corridor::{cell_open, cell_taken_room, maze_frame, reached, straight_at, tile_ok};
use crate::finished::{
    finished_maze, game_maze, lemma_exit_placed, lemma_open_walls_finish, lemma_same_tiles_finished,
    maze_from_choices,
};
use crate::grid::{at, Grid, in_grid, interior, is_room, odd_cell};
use crate::layout::{
    initial_grid, lemma_nth_room_is_room, nth_room, room_count, rooms_along, valid_maze_size,
};
use crate::maze_tile::TileType;
use crate::open_walls::{
    lemma_open_walls_keep, lemma_opening_direction, NEXT_OPEN_WALL, opening_direction, path_inside,
    with_open_walls,
};
use crate::painting::lemma_marked_tiles;
use crate::random::CHOICE_RANGE;
use crate::walk::{
    lemma_solution_is_long, lemma_walk_back, lemma_walk_choice, lemma_walk_on, lemma_walk_position,
    next_choice, Walk, walk_budget, walk_candidates, walk_distance, walk_done, walk_for, walk_start,
    walk_step, walked,
};

verus! {

/// Every cell of a finished maze that is neither border nor wall can be walked
/// to from the start.
pub proof fn lemma_every_open_cell_is_connected(
    g: Grid,
    w: int,
    h: int,
    solution: Seq<(usize, usize)>,
    x: int,
    y: int,
)
    requires
        finished_maze(g, w, h, solution),
        in_grid(w, h, x, y),
        at(g, x, y).tile_type != TileType::Border,
        at(g, x, y).tile_type != TileType::Wall,
    ensures
        connected(g, w, h, solution[0].0 as int, solution[0].1 as int, x, y),
{
    assert(at(g, x, y).tile_type.passable());
}

/// Every room of a finished maze can be walked on, and so can be walked to from
/// the start: no room is left walled in.
pub proof fn lemma_every_room_is_connected(
    g: Grid,
    w: int,
    h: int,
    solution: Seq<(usize, usize)>,
    x: int,
    y: int,
)
    requires
        finished_maze(g, w, h, solution),
        is_room(w, h, x, y),
    ensures
        at(g, x, y).tile_type.passable(),
        connected(g, w, h, solution[0].0 as int, solution[0].1 as int, x, y),
{
    reveal(maze_frame);
    assert(tile_ok(w, h, x, y, at(g, x, y)));
}

/// A finished maze has one start and one exit: the start stands on the first
/// cell of the solution and nowhere else, the exit on the last cell of the
/// solution and nowhere else, and the two are different cells.
pub proof fn lemma_one_start_one_exit(g: Grid, w: int, h: int, solution: Seq<(usize, usize)>)
    requires
        finished_maze(g, w, h, solution),
    ensures
        forall|x: int, y: int|
            in_grid(w, h, x, y) ==> ((#[trigger] at(g, x, y)).tile_type == TileType::Start <==> x
                == solution[0].0 && y == solution[0].1),
        forall|x: int, y: int|
            in_grid(w, h, x, y) ==> ((#[trigger] at(g, x, y)).tile_type == TileType::Exit <==> x
                == solution.last().0 && y == solution.last().1),
        solution[0] != solution.last(),
{
    assert(solution.last() == solution[solution.len() - 1]);
}

/// The solution of a finished maze alternates between rooms and the cells that
/// join them: it holds a room at every even place and a cell that is no room at
/// every odd place, each cell lies beside the one before it, every cell of it
/// can be walked on, and it ends on the exit.
pub proof fn lemma_solution_alternates(
    g: Grid,
    w: int,
    h: int,
    solution: Seq<(usize, usize)>,
    i: int,
)
    requires
        finished_maze(g, w, h, solution),
        0 <= i < solution.len(),
    ensures
        solution.len() % 2 == 1,
        interior(w, h, solution[i].0 as int, solution[i].1 as int),
        at(g, solution[i].0 as int, solution[i].1 as int).tile_type.passable(),
        i % 2 == 0 <==> odd_cell(solution[i].0 as int, solution[i].1 as int),
        i + 1 < solution.len() ==> adjacent(solution[i], solution[i + 1]),
        at(g, solution.last().0 as int, solution.last().1 as int).tile_type == TileType::Exit,
{
    assert(cell_open(g, w, h, solution[i]));
    if i % 2 == 0 {
        assert(cell_taken_room(g, solution[i]));
    } else {
        assert(straight_at(solution, i));
        assert(cell_taken_room(g, solution[i - 1]));
    }
    lemma_corridor_is_walk(g, w, h, solution);
    if i + 1 < solution.len() {
        assert(step_at(solution, i));
    }
}

/// The walk after one more step is the walk so far with one step taken, unless
/// it was done already.
pub proof fn lemma_walk_one_more(s: Walk, choices: Seq<usize>, steps: nat)
    ensures
        walk_for(s, choices, steps + 1) == (if walk_done(walk_for(s, choices, steps)) {
            walk_for(s, choices, steps)
        } else {
            walk_step(walk_for(s, choices, steps), choices)
        }),
    decreases steps,
{
    if walk_done(s) {
        assert(walk_for(s, choices, steps) == s);
    } else if steps == 0 {
        assert(walk_for(walk_step(s, choices), choices, 0) == walk_step(s, choices));
    } else {
        lemma_walk_one_more(walk_step(s, choices), choices, (steps - 1) as nat);
    }
}

/// At every moment of the walk the recorded longest path is at least as long as
/// the stack.
pub proof fn lemma_best_covers_stack(s: Walk, choices: Seq<usize>, steps: nat)
    requires
        s.stack.len() <= s.best.len(),
    ensures
        walk_for(s, choices, steps).stack.len() <= walk_for(s, choices, steps).best.len(),
        s.best.len() <= walk_for(s, choices, steps).best.len(),
    decreases steps,
{
    if steps > 0 && !walk_done(s) {
        let s2 = walk_step(s, choices);
        if walk_candidates(s).len() == 0 {
            assert(popped(s.stack).len() <= s.stack.len());
        }
        lemma_best_covers_stack(s2, choices, (steps - 1) as nat);
    }
}

/// The recorded longest path never gets shorter while the walk goes on.
pub proof fn lemma_best_grows(s: Walk, choices: Seq<usize>, earlier: nat, later: nat)
    requires
        s.stack.len() <= s.best.len(),
        earlier <= later,
    ensures
        walk_for(s, choices, earlier).best.len() <= walk_for(s, choices, later).best.len(),
    decreases later - earlier,
{
    if earlier < later {
        lemma_best_grows(s, choices, earlier, (later - 1) as nat);
        lemma_walk_one_more(s, choices, (later - 1) as nat);
        let before = walk_for(s, choices, (later - 1) as nat);
        lemma_best_covers_stack(s, choices, (later - 1) as nat);
        if !walk_done(before) {
            if walk_candidates(before).len() > 0 {
            }
        }
    }
}

/// The solution is the longest path that the walk produced.
///
/// The solution that generation returns is at least as long as the stack of the
/// walk was after any number of its steps: no path that the walk discovered on
/// its way is longer.
pub proof fn lemma_solution_is_longest(
    w: int,
    h: int,
    sx: int,
    sy: int,
    choices: Seq<usize>,
    steps: nat,
)
    requires
        steps <= walk_budget(w, h),
    ensures
        walk_for(walk_start(w, h, sx, sy), choices, steps).stack.len() <= walked(
            w,
            h,
            sx,
            sy,
            choices,
        ).best.len(),
{
    let s = walk_start(w, h, sx, sy);
    lemma_best_covers_stack(s, choices, steps);
    lemma_best_grows(s, choices, steps, walk_budget(w, h));
}

/// Every room of a finished maze is reached from the start by a corridor that
/// is no longer than the solution.
pub proof fn lemma_no_room_lies_further(
    g: Grid,
    w: int,
    h: int,
    solution: Seq<(usize, usize)>,
    x: int,
    y: int,
)
    requires
        finished_maze(g, w, h, solution),
        is_room(w, h, x, y),
    ensures
        reached(
            g,
            w,
            h,
            solution[0].0 as int,
            solution[0].1 as int,
            x,
            y,
            solution.len() as int,
        ),
{
}

/// The pass that opens extra walls never changes a border cell, nor the start,
/// nor the exit, nor a cell that is open already: it changes standing walls
/// only, and those it opens.
pub proof fn lemma_open_walls_change_walls_only(
    g: Grid,
    w: int,
    h: int,
    path: Seq<(usize, usize)>,
    x: int,
    y: int,
)
    requires
        maze_frame(g, w, h),
        path_inside(w, h, path),
        in_grid(w, h, x, y),
    ensures
        at(g, x, y).tile_type != TileType::Wall ==> at(with_open_walls(g, path), x, y) == at(
            g,
            x,
            y,
        ),
        at(with_open_walls(g, path), x, y).tile_type == at(g, x, y).tile_type || at(
            with_open_walls(g, path),
            x,
            y,
        ).tile_type == TileType::Open,
        at(with_open_walls(g, path), x, y).can_be_used == at(g, x, y).can_be_used,
        at(with_open_walls(g, path), x, y).id == at(g, x, y).id,
{
    lemma_open_walls_keep(g, w, h, path, NEXT_OPEN_WALL as nat);
}

/// The wall that the pass opens beside a cell is never flanked by open cells:
/// the cells on both sides of it, across the direction in which it is opened,
/// are standing walls. So of the two cells that the pass may open at one place,
/// the first is no wall between two open cells.
pub proof fn lemma_opened_wall_is_flanked_by_walls(g: Grid, x: int, y: int)
    ensures
        opening_direction(g, x, y) matches Some(d) ==> {
            &&& at(g, x + d.0, y + d.1).tile_type == TileType::Wall
            &&& at(g, x + d.0 - d.1, y + d.1 - d.0).tile_type == TileType::Wall
            &&& at(g, x + d.0 + d.1, y + d.1 + d.0).tile_type == TileType::Wall
            &&& !(at(g, x + d.0 - d.1, y + d.1 - d.0).tile_type == TileType::Open && at(
                g,
                x + d.0 + d.1,
                y + d.1 + d.0,
            ).tile_type == TileType::Open)
        },
{
    lemma_opening_direction(g, x, y);
}

/// Opening extra walls keeps a finished maze finished: it still has its one
/// start and its one exit on the ends of the solution, the solution can still be
/// walked, and every cell that is neither border nor wall can still be walked to
/// from the start.
pub proof fn lemma_extra_walls_keep_maze_finished(
    g: Grid,
    w: int,
    h: int,
    solution: Seq<(usize, usize)>,
)
    requires
        finished_maze(g, w, h, solution),
        w <= usize::MAX,
        h <= usize::MAX,
    ensures
        finished_maze(with_open_walls(g, solution), w, h, solution),
{
    lemma_open_walls_finish(g, w, h, solution);
}

/// The same size and the same choices give the same maze and the same solution.
pub proof fn lemma_same_choices_same_maze(
    w: int,
    h: int,
    start_choice: int,
    choices: Seq<usize>,
    first: (Grid, Seq<(usize, usize)>),
    second: (Grid, Seq<(usize, usize)>),
)
    requires
        first == maze_from_choices(w, h, start_choice, choices),
        second == maze_from_choices(w, h, start_choice, choices),
    ensures
        first.0 == second.0,
        first.1 == second.1,
        with_open_walls(first.0, first.1) == with_open_walls(second.0, second.1),
{
}

/// Every room can be the start: it is the room that one start choice below the
/// number of rooms selects.
pub proof fn lemma_every_room_can_be_the_start(w: int, h: int, x: int, y: int)
    requires
        valid_maze_size(w, h),
        is_room(w, h, x, y),
    ensures
        0 <= ((y - 1) / 2) * rooms_along(w) + (x - 1) / 2 < room_count(w, h),
        nth_room(w, ((y - 1) / 2) * rooms_along(w) + (x - 1) / 2) == (x, y),
{
    let cols = rooms_along(w);
    let rows = rooms_along(h);
    let a = (x - 1) / 2;
    let b = (y - 1) / 2;
    let k = b * cols + a;
    assert(0 <= a < cols && 0 <= b < rows);
    assert(0 <= k < cols * rows) by (nonlinear_arith)
        requires
            0 <= a < cols,
            0 <= b < rows,
            k == b * cols + a,
    ;
    lemma_fundamental_div_mod_converse(k, cols, b, a);
}

/// No two start choices below the number of rooms select the same room: each
/// room is as likely to be the start as any other when each choice is as likely
/// as any other.
pub proof fn lemma_start_choices_differ(w: int, h: int, j: int, k: int)
    requires
        valid_maze_size(w, h),
        0 <= j < room_count(w, h),
        0 <= k < room_count(w, h),
        nth_room(w, j) == nth_room(w, k),
    ensures
        j == k,
{
    let cols = rooms_along(w);
    lemma_fundamental_div_mod(j, cols);
    lemma_fundamental_div_mod(k, cols);
}

/// While the walk is under way, what holds while it carves holds, and each step
/// brings it two nearer to its end.
pub proof fn lemma_walk_stays_in_order(
    w: int,
    h: int,
    sx: int,
    sy: int,
    choices: Seq<usize>,
    steps: nat,
)
    requires
        valid_maze_size(w, h),
        is_room(w, h, sx, sy),
    ensures
        ({
            let s = walk_for(walk_start(w, h, sx, sy), choices, steps);
            let usable0 = usable_cells(initial_grid(w, h, sx, sy), w, h).len();
            &&& carving(s.grid, w, h, sx, sy, s.stack, s.best)
            &&& usable_cells(s.grid, w, h).finite()
            &&& usable0 <= w * h
            &&& walk_done(s) || 2 * steps + walk_distance(s.grid, w, h, s.stack) == 4 * usable0 + 1
        }),
    decreases steps,
{
    let begin = walk_start(w, h, sx, sy);
    lemma_usable_cells_bound(begin.grid, w, h);
    if steps == 0 {
        lemma_walk_begins(w, h, sx, sy);
    } else {
        let before = walk_for(begin, choices, (steps - 1) as nat);
        lemma_walk_stays_in_order(w, h, sx, sy, choices, (steps - 1) as nat);
        lemma_walk_one_more(begin, choices, (steps - 1) as nat);
        if !walk_done(before) {
            if walk_candidates(before).len() == 0 {
                lemma_walk_back(before, w, h, sx, sy, choices);
            } else {
                let dir = lemma_walk_choice(
                    before.grid,
                    w,
                    h,
                    sx,
                    sy,
                    before.stack,
                    before.best,
                    next_choice(choices, before.used),
                );
                lemma_walk_on(before, w, h, sx, sy, choices, dir);
            }
        }
    }
}

/// The walk is done within its budget, and it has then taken every room.
pub proof fn lemma_walk_is_done_in_time(w: int, h: int, sx: int, sy: int, choices: Seq<usize>)
    requires
        valid_maze_size(w, h),
        is_room(w, h, sx, sy),
    ensures
        walk_done(walked(w, h, sx, sy, choices)),
        carved_out(
            walked(w, h, sx, sy, choices).grid,
            w,
            h,
            sx,
            sy,
            walked(w, h, sx, sy, choices).best,
        ),
{
    let end = walked(w, h, sx, sy, choices);
    lemma_walk_stays_in_order(w, h, sx, sy, choices, walk_budget(w, h));
    assert(2 * (w * h) == 2 * w * h) by (nonlinear_arith);
    assert(walk_done(end));
    lemma_walk_position(end.grid, w, h, sx, sy, end.stack, end.best);
    lemma_no_candidate(end.grid, sx, sy);
    lemma_walk_ends(end.grid, w, h, sx, sy, end.stack, end.best);
}

/// Every maze that generation yields is finished.
///
/// For every size that is accepted, every start choice and all choices of the
/// walk, the maze that generation yields has one start and one exit on the ends
/// of its solution, its solution is a corridor, and every cell of it that is
/// neither border nor wall can be walked to from the start.
pub proof fn lemma_generated_maze_is_finished(
    w: int,
    h: int,
    start_choice: int,
    choices: Seq<usize>,
)
    requires
        valid_maze_size(w, h),
        start_choice >= 0,
    ensures
        finished_maze(
            maze_from_choices(w, h, start_choice, choices).0,
            w,
            h,
            maze_from_choices(w, h, start_choice, choices).1,
        ),
{
    let k = start_choice % room_count(w, h);
    assert(room_count(w, h) > 0) by (nonlinear_arith)
        requires
            rooms_along(w) >= 2,
            rooms_along(h) >= 2,
            room_count(w, h) == rooms_along(w) * rooms_along(h),
    ;
    lemma_nth_room_is_room(w, h, k);
    let start = nth_room(w, k);
    let end = walked(w, h, start.0, start.1, choices);
    lemma_walk_is_done_in_time(w, h, start.0, start.1, choices);
    lemma_solution_is_long(end.grid, w, h, start.0, start.1, end.best);
    lemma_exit_placed(end.grid, w, h, start.0, start.1, end.best);
}

/// Every maze of a new game is finished: the maze that generation yields, with
/// extra walls opened along its solution and the solution marked.
pub proof fn lemma_game_maze_is_finished(w: int, h: int, start_choice: int, choices: Seq<usize>)
    requires
        valid_maze_size(w, h),
        start_choice >= 0,
    ensures
        finished_maze(
            game_maze(maze_from_choices(w, h, start_choice, choices)),
            w,
            h,
            maze_from_choices(w, h, start_choice, choices).1,
        ),
{
    reveal(maze_frame);
    let generated = maze_from_choices(w, h, start_choice, choices);
    let opened = with_open_walls(generated.0, generated.1);
    lemma_generated_maze_is_finished(w, h, start_choice, choices);
    lemma_open_walls_finish(generated.0, w, h, generated.1);
    lemma_marked_tiles(opened, w, h, generated.1);
    lemma_same_tiles_finished(opened, game_maze(generated), w, h, generated.1);
}

/// The walk never has more than four directions to choose from.
pub proof fn lemma_at_most_four_directions(g: Grid, x: int, y: int)
    ensures
        candidates(g, x, y).len() <= 4,
{
}

/// A choice is fair to every direction.
///
/// Whether one, two, three or four directions are open, each of them is selected
/// by equally many of the values that a choice can take: the direction with
/// number `k` of `n` is selected by the values `k`, `k + n`, `k + 2 * n` and so
/// on below `CHOICE_RANGE`, and there are `CHOICE_RANGE / n` of them.
pub proof fn lemma_choice_is_fair(n: int, k: int, q: int)
    requires
        1 <= n <= 4,
        0 <= k < n,
        0 <= q < CHOICE_RANGE as int / n,
    ensures
        0 <= q * n + k < CHOICE_RANGE,
        (q * n + k) % n == k,
        (q * n + k) / n == q,
        CHOICE_RANGE as int % n == 0,
{
    lemma_fundamental_div_mod_converse(q * n + k, n, q, k);
    if n == 1 {
    } else if n == 2 {
    } else if n == 3 {
    } else {
    }
}

} // verus!
