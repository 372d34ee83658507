//! The carving walk, step by step: what it does with each choice, and that it ends.

use vstd::prelude::*;
use crate::carve::{
    can_go, candidates, carved, carved_out, carving, dead_end, direction_entry, lemma_backtrack,
    lemma_candidate_is_open, lemma_carve_step, lemma_direction_cells, lemma_going,
    lemma_no_candidate, lemma_usable_after_carve, longer, popped, pushed, usable_cells,
};
use crate::corridor::{corridor, lemma_with_tile, maze_frame, reached, tile_ok, unit_step};
use crate::grid::{at, Grid, in_grid, interior, is_grid, is_room};
use crate::layout::{initial_grid, tile_id, valid_maze_size, with_kind, with_taken};
use crate::maze_tile::{MazeTile, TileType};

verus! {

/// The direction that a choice selects among `directions`: the choice counts
/// them round and round. Where there is none, the answer names no wall and the
/// position itself as the cell to go to.
pub open spec fn chosen_direction(
    x: int,
    y: int,
    directions: Seq<(usize, usize, usize, usize)>,
    choice: usize,
) -> (usize, usize, usize, usize) {
    if directions.len() == 0 {
        (0usize, 0usize, x as usize, y as usize)
    } else {
        directions[choice as int % directions.len() as int]
    }
}

/// The maze with the wall of the chosen direction opened, if it names one.
pub open spec fn opened(g: Grid, d: (usize, usize, usize, usize)) -> Grid {
    if d.0 != 0 && d.1 != 0 {
        with_kind(g, d.0 as int, d.1 as int, TileType::Open)
    } else {
        g
    }
}

/// The state of the carving walk.
pub struct Walk {
    /// The maze as carved so far.
    pub grid: Grid,
    /// The corridor from the start to the walk's position.
    pub stack: Seq<(usize, usize)>,
    /// The longest corridor that the stack has been.
    pub best: Seq<(usize, usize)>,
    /// How many of the choices the walk has used.
    pub used: nat,
}

/// The directions that are open at the walk's position.
pub open spec fn walk_candidates(s: Walk) -> Seq<(usize, usize, usize, usize)> {
    candidates(s.grid, s.stack.last().0 as int, s.stack.last().1 as int)
}

/// The walk is back at the start and can go nowhere.
pub open spec fn walk_done(s: Walk) -> bool {
    walk_candidates(s).len() == 0 && s.stack.len() <= 1
}

/// The choice that the walk uses next: the next unused one, or 0 when all are
/// used.
pub open spec fn next_choice(choices: Seq<usize>, used: nat) -> usize {
    if used < choices.len() {
        choices[used as int]
    } else {
        0
    }
}

/// One step of the walk: through the chosen open direction where there is one,
/// back to the room before where there is none.
pub open spec fn walk_step(s: Walk, choices: Seq<usize>) -> Walk {
    let c = walk_candidates(s);
    if c.len() == 0 {
        Walk { stack: popped(s.stack), ..s }
    } else {
        let d = c[next_choice(choices, s.used) as int % c.len() as int];
        Walk {
            grid: carved(s.grid, d),
            stack: pushed(s.stack, d),
            best: longer(s.best, pushed(s.stack, d)),
            used: if s.used < choices.len() {
                s.used + 1
            } else {
                s.used
            },
        }
    }
}

/// The walk after at most `steps` steps, or fewer where it is done before.
pub open spec fn walk_for(s: Walk, choices: Seq<usize>, steps: nat) -> Walk
    decreases steps,
{
    if steps == 0 || walk_done(s) {
        s
    } else {
        walk_for(walk_step(s, choices), choices, (steps - 1) as nat)
    }
}

/// A number of steps in which every walk through a `w` by `h` maze is done: the
/// walk goes into each cell at most once and back out of it at most once.
pub open spec fn walk_budget(w: int, h: int) -> nat {
    (2 * w * h + 1) as nat
}

/// The walk before its first step, with the start on (`sx`, `sy`).
pub open spec fn walk_start(w: int, h: int, sx: int, sy: int) -> Walk {
    Walk {
        grid: initial_grid(w, h, sx, sy),
        stack: seq![(sx as usize, sy as usize)],
        best: seq![(sx as usize, sy as usize)],
        used: 0,
    }
}

/// The finished walk through a `w` by `h` maze from the start (`sx`, `sy`) under
/// the given choices.
pub open spec fn walked(w: int, h: int, sx: int, sy: int, choices: Seq<usize>) -> Walk {
    walk_for(walk_start(w, h, sx, sy), choices, walk_budget(w, h))
}

/// A measure of how far the walk is from its end: four for every cell that can
/// still be used and one for every cell on the stack. Each step of the walk
/// lowers it by two.
pub open spec fn walk_distance(g: Grid, w: int, h: int, stack: Seq<(usize, usize)>) -> nat {
    4 * usable_cells(g, w, h).len() + stack.len()
}

/// The row-major identities of two rooms that lie two steps apart differ.
pub proof fn lemma_ids_differ(w: int, x: int, y: int, dx: int, dy: int)
    requires
        w >= 3,
        unit_step(dx, dy),
    ensures
        tile_id(w, x + 2 * dx, y + 2 * dy) != tile_id(w, x, y),
{
    assert((y + 2 * dy) * w == y * w + 2 * dy * w) by (nonlinear_arith);
    if dy == 1 {
        assert(2 * dy * w == 2 * w);
    } else if dy == -1 {
        assert(2 * dy * w == -2 * w);
    } else {
        assert(2 * dy * w == 0);
    }
}

/// The solution of a carved maze holds at least a room, a wall and another
/// room, and it does not end where it starts.
pub proof fn lemma_solution_is_long(
    g: Grid,
    w: int,
    h: int,
    sx: int,
    sy: int,
    best: Seq<(usize, usize)>,
)
    requires
        valid_maze_size(w, h),
        carved_out(g, w, h, sx, sy, best),
    ensures
        best.len() >= 3,
        best.last() != best[0],
{
    let nx = if sx + 2 < w - 1 {
        sx + 2
    } else {
        sx - 2
    };
    assert(is_room(w, h, nx, sy));
    assert(reached(g, w, h, sx, sy, nx, sy, best.len() as int));
    let p = choose|p: Seq<(usize, usize)>|
        #[trigger] corridor(g, w, h, p) && p[0].0 == sx && p[0].1 == sy && p.last().0 == nx
            && p.last().1 == sy && p.len() <= best.len();
    assert(p.len() != 1);
}

/// Where the walk stands while it carves: on an inner cell of a maze in order.
pub proof fn lemma_walk_position(
    g: Grid,
    w: int,
    h: int,
    sx: int,
    sy: int,
    stack: Seq<(usize, usize)>,
    best: Seq<(usize, usize)>,
)
    requires
        carving(g, w, h, sx, sy, stack, best),
    ensures
        maze_frame(g, w, h),
        is_grid(g, w, h),
        stack.len() > 0,
        interior(w, h, stack.last().0 as int, stack.last().1 as int),
        stack.len() == 1 ==> stack.last().0 == sx && stack.last().1 == sy,
{
    reveal(carving);
    reveal(maze_frame);
    lemma_direction_cells(g, w, h, stack, 0, 1);
}

/// What the chosen direction is while the walk carves. Where a direction is
/// open, the choice names a wall inside the border and a usable room behind it,
/// whose identity differs from that of the walk's position; the lemma returns
/// the step that leads there. Where none is open, the walk is at a dead end.
pub proof fn lemma_walk_choice(
    g: Grid,
    w: int,
    h: int,
    sx: int,
    sy: int,
    stack: Seq<(usize, usize)>,
    best: Seq<(usize, usize)>,
    choice: usize,
) -> (dir: (int, int))
    requires
        carving(g, w, h, sx, sy, stack, best),
        w <= usize::MAX,
        h <= usize::MAX,
    ensures
        ({
            let x = stack.last().0 as int;
            let y = stack.last().1 as int;
            let c = candidates(g, x, y);
            let d = chosen_direction(x, y, c, choice);
            &&& c.len() == 0 ==> dead_end(g, x, y) && opened(g, d) == g && d.2 == x && d.3 == y
            &&& c.len() > 0 ==> {
                &&& can_go(g, w, h, x, y, dir.0, dir.1)
                &&& d == direction_entry(x, y, dir.0, dir.1)
                &&& d == c[choice as int % c.len() as int]
                &&& opened(g, d) == with_kind(g, d.0 as int, d.1 as int, TileType::Open)
                &&& is_grid(opened(g, d), w, h)
                &&& in_grid(w, h, d.0 as int, d.1 as int)
                &&& in_grid(w, h, d.2 as int, d.3 as int)
                &&& carved(g, d) == with_taken(opened(g, d), d.2 as int, d.3 as int)
            }
            &&& in_grid(w, h, d.2 as int, d.3 as int)
            &&& in_grid(w, h, x, y)
            &&& is_grid(opened(g, d), w, h)
            &&& (at(opened(g, d), d.2 as int, d.3 as int).id == at(opened(g, d), x, y).id <==> c.len()
                == 0)
        }),
{
    reveal(carving);
    reveal(maze_frame);
    let x = stack.last().0 as int;
    let y = stack.last().1 as int;
    let c = candidates(g, x, y);
    let d = chosen_direction(x, y, c, choice);
    lemma_direction_cells(g, w, h, stack, 0, 1);
    if c.len() == 0 {
        lemma_no_candidate(g, x, y);
        (0, 1)
    } else {
        let k = choice as int % c.len() as int;
        let dir = lemma_candidate_is_open(g, x, y, k);
        lemma_direction_cells(g, w, h, stack, dir.0, dir.1);
        lemma_going(g, w, h, x, y, dir.0, dir.1);
        lemma_ids_differ(w, x, y, dir.0, dir.1);
        lemma_with_tile(
            g,
            w,
            h,
            d.0 as int,
            d.1 as int,
            MazeTile { tile_type: TileType::Open, ..at(g, d.0 as int, d.1 as int) },
        );
        assert(tile_ok(w, h, x, y, at(g, x, y)));
        assert(tile_ok(w, h, d.2 as int, d.3 as int, at(g, d.2 as int, d.3 as int)));
        assert(at(opened(g, d), x, y) == at(g, x, y));
        assert(at(opened(g, d), d.2 as int, d.3 as int) == at(g, d.2 as int, d.3 as int));
        dir
    }
}

/// The walk's step back from a dead end: what holds while the walk carves still
/// holds, the walk is two nearer to its end, and the step is the one that
/// `walk_step` describes.
pub proof fn lemma_walk_back(
    s: Walk,
    w: int,
    h: int,
    sx: int,
    sy: int,
    choices: Seq<usize>,
)
    requires
        carving(s.grid, w, h, sx, sy, s.stack, s.best),
        walk_candidates(s).len() == 0,
        s.stack.len() > 1,
    ensures
        !walk_done(s),
        walk_step(s, choices) == (Walk { stack: popped(s.stack), ..s }),
        carving(s.grid, w, h, sx, sy, popped(s.stack), s.best),
        popped(s.stack).len() + 2 == s.stack.len(),
        walk_distance(s.grid, w, h, popped(s.stack)) + 2 == walk_distance(s.grid, w, h, s.stack),
{
    lemma_no_candidate(s.grid, s.stack.last().0 as int, s.stack.last().1 as int);
    lemma_backtrack(s.grid, w, h, sx, sy, s.stack, s.best);
}

/// The walk's step through an open direction: what holds while the walk carves
/// still holds, the walk is two nearer to its end, and the step is the one that
/// `walk_step` describes.
pub proof fn lemma_walk_on(
    s: Walk,
    w: int,
    h: int,
    sx: int,
    sy: int,
    choices: Seq<usize>,
    dir: (int, int),
)
    requires
        carving(s.grid, w, h, sx, sy, s.stack, s.best),
        valid_maze_size(w, h),
        walk_candidates(s).len() > 0,
        can_go(s.grid, w, h, s.stack.last().0 as int, s.stack.last().1 as int, dir.0, dir.1),
        direction_entry(s.stack.last().0 as int, s.stack.last().1 as int, dir.0, dir.1)
            == walk_candidates(s)[next_choice(choices, s.used) as int % walk_candidates(
            s,
        ).len() as int],
    ensures
        !walk_done(s),
        ({
            let d = direction_entry(
                s.stack.last().0 as int,
                s.stack.last().1 as int,
                dir.0,
                dir.1,
            );
            let s2 = walk_step(s, choices);
            &&& s2.grid == carved(s.grid, d)
            &&& s2.stack == pushed(s.stack, d)
            &&& s2.best == longer(s.best, pushed(s.stack, d))
            &&& s2.used == (if s.used < choices.len() {
                s.used + 1
            } else {
                s.used
            })
            &&& carving(s2.grid, w, h, sx, sy, s2.stack, s2.best)
            &&& is_grid(s2.grid, w, h)
            &&& usable_cells(s2.grid, w, h).finite()
            &&& walk_distance(s2.grid, w, h, s2.stack) + 2 == walk_distance(s.grid, w, h, s.stack)
        }),
{
    reveal(carving);
    let x = s.stack.last().0 as int;
    let y = s.stack.last().1 as int;
    let d = direction_entry(x, y, dir.0, dir.1);
    lemma_going(s.grid, w, h, x, y, dir.0, dir.1);
    lemma_carve_step(s.grid, w, h, sx, sy, s.stack, s.best, dir.0, dir.1);
    lemma_usable_after_carve(s.grid, w, h, d);
}

/// A walk that is done stays as it is, however many steps it is given.
pub proof fn lemma_walk_rests(s: Walk, choices: Seq<usize>, steps: nat)
    requires
        walk_done(s),
    ensures
        walk_for(s, choices, steps) == s,
{
}

/// A walk that is not done and has a step left takes it.
pub proof fn lemma_walk_unfolds(s: Walk, choices: Seq<usize>, steps: nat)
    requires
        !walk_done(s),
        steps > 0,
    ensures
        walk_for(s, choices, steps) == walk_for(walk_step(s, choices), choices, (steps - 1) as nat),
{
}

/// The budget is enough: while the walk is under way it has taken fewer steps
/// than the budget allows.
pub proof fn lemma_budget_lasts(w: int, h: int, steps: nat, distance: nat, usable0: nat)
    requires
        w > 0,
        h > 0,
        usable0 <= w * h,
        distance >= 1,
        2 * steps + distance == 4 * usable0 + 1,
    ensures
        steps < walk_budget(w, h),
{
    assert(2 * (w * h) == 2 * w * h) by (nonlinear_arith);
}

} // verus!
