//! The finished maze: what generation promises of it.

use vstd::prelude::*;
use crate::carve::{all_taken, carved_out, start_at};
use crate::connect::{
    cell_passable, fully_connected, lemma_carved_is_connected, lemma_fully_connected_extends,
};
use crate::corridor::{
    cell_open, cell_taken_room, corridor, extends, lemma_corridor_extends, lemma_reached_extends,
    lemma_with_tile, maze_frame, reached, tile_ok,
};
use crate::grid::{at, Grid, in_grid, interior, is_grid, is_room};
use crate::layout::{nth_room, room_count, with_kind};
use crate::maze_tile::{MazeTile, TileType};
use crate::open_walls::{
    lemma_open_walls_connected, lemma_open_walls_keep, NEXT_OPEN_WALL, path_inside, with_open_walls,
};
use crate::painting::solution_marked;
use crate::walk::walked;

verus! {

/// (`ex`, `ey`) is a room, it holds the exit, and no other cell does.
pub open spec fn exit_at(g: Grid, w: int, h: int, ex: int, ey: int) -> bool {
    &&& is_room(w, h, ex, ey)
    &&& at(g, ex, ey).tile_type == TileType::Exit
    &&& forall|x: int, y: int|
        in_grid(w, h, x, y) && (x != ex || y != ey) ==> (#[trigger] at(g, x, y)).tile_type
            != TileType::Exit
}

/// What holds of a maze with its solution once generation has finished.
///
/// Every tile is in order. The solution is a corridor of at least three cells in
/// which no cell occurs twice; the one start stands on its first cell and the
/// one exit on its last. No cell can still be used, and every room is reached
/// from the start by a corridor that is no longer than the solution. A walk
/// leads from the start to every cell that is neither border nor wall.
pub open spec fn finished_maze(g: Grid, w: int, h: int, solution: Seq<(usize, usize)>) -> bool {
    &&& maze_frame(g, w, h)
    &&& solution.len() >= 3
    &&& corridor(g, w, h, solution)
    &&& solution.no_duplicates()
    &&& start_at(g, w, h, solution[0].0 as int, solution[0].1 as int)
    &&& exit_at(g, w, h, solution.last().0 as int, solution.last().1 as int)
    &&& all_taken(g, w, h)
    &&& forall|x: int, y: int|
        is_room(w, h, x, y) ==> #[trigger] reached(
            g,
            w,
            h,
            solution[0].0 as int,
            solution[0].1 as int,
            x,
            y,
            solution.len() as int,
        )
    &&& fully_connected(g, w, h, solution[0].0 as int, solution[0].1 as int)
}

/// The maze and the solution that generation yields for a size, a start choice
/// and the choices of the walk: the start stands on the room that the start
/// choice selects, the walk carves from there, and the exit is placed on the
/// last cell of the longest corridor that the walk's stack has been.
pub open spec fn maze_from_choices(w: int, h: int, start_choice: int, choices: Seq<usize>) -> (
    Grid,
    Seq<(usize, usize)>,
) {
    let start = nth_room(w, start_choice % room_count(w, h));
    let end = walked(w, h, start.0, start.1, choices);
    (
        with_kind(end.grid, end.best.last().0 as int, end.best.last().1 as int, TileType::Exit),
        end.best,
    )
}

/// Placing the exit on the last cell of the solution finishes a carved maze.
pub proof fn lemma_exit_placed(g: Grid, w: int, h: int, sx: int, sy: int, best: Seq<(usize, usize)>)
    requires
        carved_out(g, w, h, sx, sy, best),
        best.len() >= 3,
        best.last() != best[0],
        w <= usize::MAX,
        h <= usize::MAX,
    ensures
        finished_maze(
            with_kind(g, best.last().0 as int, best.last().1 as int, TileType::Exit),
            w,
            h,
            best,
        ),
        is_grid(with_kind(g, best.last().0 as int, best.last().1 as int, TileType::Exit), w, h),
{
    reveal(maze_frame);
    let ex = best.last().0 as int;
    let ey = best.last().1 as int;
    let g2 = with_kind(g, ex, ey, TileType::Exit);
    let n = best.len() as int;
    assert(best[n - 1] == best.last());
    assert(cell_open(g, w, h, best[n - 1]));
    assert(cell_taken_room(g, best[n - 1]));
    lemma_with_tile(g, w, h, ex, ey, MazeTile { tile_type: TileType::Exit, ..at(g, ex, ey) });
    assert(extends(g, g2, w, h)) by {
        assert forall|a: int, b: int| in_grid(w, h, a, b) implies {
            &&& at(g, a, b).tile_type.passable() ==> (#[trigger] at(g2, a, b)).tile_type.passable()
            &&& !at(g, a, b).can_be_used ==> !at(g2, a, b).can_be_used
        } by {
            if a != ex || b != ey {
                assert(at(g2, a, b) == at(g, a, b));
            }
        }
    }
    assert(maze_frame(g2, w, h)) by {
        assert forall|a: int, b: int| in_grid(w, h, a, b) implies tile_ok(
            w,
            h,
            a,
            b,
            #[trigger] at(g2, a, b),
        ) by {
            assert(tile_ok(w, h, a, b, at(g, a, b)));
            if a != ex || b != ey {
                assert(at(g2, a, b) == at(g, a, b));
            }
        }
    }
    lemma_corridor_extends(g, g2, w, h, best);
    assert(start_at(g2, w, h, sx, sy)) by {
        assert(at(g2, sx, sy) == at(g, sx, sy));
        assert forall|a: int, b: int|
            in_grid(w, h, a, b) && (a != sx || b != sy) implies (#[trigger] at(g2, a, b)).tile_type
            != TileType::Start by {
            assert(at(g, a, b).tile_type != TileType::Start);
            if a != ex || b != ey {
                assert(at(g2, a, b) == at(g, a, b));
            }
        }
    }
    assert(exit_at(g2, w, h, ex, ey)) by {
        assert forall|a: int, b: int|
            in_grid(w, h, a, b) && (a != ex || b != ey) implies (#[trigger] at(g2, a, b)).tile_type
            != TileType::Exit by {
            assert(at(g, a, b).tile_type != TileType::Exit);
            assert(at(g2, a, b) == at(g, a, b));
        }
    }
    assert(all_taken(g2, w, h)) by {
        assert forall|a: int, b: int| in_grid(w, h, a, b) implies !(#[trigger] at(
            g2,
            a,
            b,
        )).can_be_used by {
            assert(!at(g, a, b).can_be_used);
        }
    }
    assert forall|x: int, y: int| is_room(w, h, x, y) implies #[trigger] reached(
        g2,
        w,
        h,
        sx,
        sy,
        x,
        y,
        best.len() as int,
    ) by {
        assert(reached(g, w, h, sx, sy, x, y, best.len() as int));
        lemma_reached_extends(g, g2, w, h, sx, sy, x, y, best.len() as int, best.len() as int);
    }
    lemma_carved_is_connected(g, w, h, sx, sy, best);
    assert forall|x: int, y: int|
        in_grid(w, h, x, y) && (#[trigger] at(g2, x, y)).tile_type.passable() implies at(
        g,
        x,
        y,
    ).tile_type.passable() by {
        if x != ex || y != ey {
            assert(at(g2, x, y) == at(g, x, y));
        }
    }
    lemma_fully_connected_extends(g, g2, w, h, sx, sy);
}

/// The cells of a finished maze's solution lie inside the border and can be
/// walked on.
pub proof fn lemma_solution_inside(g: Grid, w: int, h: int, solution: Seq<(usize, usize)>)
    requires
        corridor(g, w, h, solution),
    ensures
        path_inside(w, h, solution),
        forall|i: int| 0 <= i < solution.len() ==> cell_passable(g, w, h, #[trigger] solution[i]),
{
    assert forall|i: int| 0 <= i < solution.len() implies interior(
        w,
        h,
        (#[trigger] solution[i]).0 as int,
        solution[i].1 as int,
    ) by {
        assert(cell_open(g, w, h, solution[i]));
    }
    assert forall|i: int| 0 <= i < solution.len() implies cell_passable(
        g,
        w,
        h,
        #[trigger] solution[i],
    ) by {
        assert(cell_open(g, w, h, solution[i]));
    }
}

/// Opening extra walls along the solution leaves a finished maze finished: the
/// start, the exit and the solution stay as they are, and the maze stays fully
/// connected.
pub proof fn lemma_open_walls_finish(g: Grid, w: int, h: int, solution: Seq<(usize, usize)>)
    requires
        finished_maze(g, w, h, solution),
        w <= usize::MAX,
        h <= usize::MAX,
    ensures
        finished_maze(with_open_walls(g, solution), w, h, solution),
{
    let g2 = with_open_walls(g, solution);
    let sx = solution[0].0 as int;
    let sy = solution[0].1 as int;
    let ex = solution.last().0 as int;
    let ey = solution.last().1 as int;
    lemma_solution_inside(g, w, h, solution);
    lemma_open_walls_keep(g, w, h, solution, NEXT_OPEN_WALL as nat);
    lemma_open_walls_connected(g, w, h, sx, sy, solution, NEXT_OPEN_WALL as nat);
    lemma_corridor_extends(g, g2, w, h, solution);
    assert(start_at(g2, w, h, sx, sy)) by {
        assert(at(g2, sx, sy) == at(g, sx, sy));
        assert forall|a: int, b: int|
            in_grid(w, h, a, b) && (a != sx || b != sy) implies (#[trigger] at(g2, a, b)).tile_type
            != TileType::Start by {
            assert(at(g, a, b).tile_type != TileType::Start);
        }
    }
    assert(exit_at(g2, w, h, ex, ey)) by {
        assert(at(g2, ex, ey) == at(g, ex, ey));
        assert forall|a: int, b: int|
            in_grid(w, h, a, b) && (a != ex || b != ey) implies (#[trigger] at(g2, a, b)).tile_type
            != TileType::Exit by {
            assert(at(g, a, b).tile_type != TileType::Exit);
        }
    }
    assert(all_taken(g2, w, h)) by {
        assert forall|a: int, b: int| in_grid(w, h, a, b) implies !(#[trigger] at(
            g2,
            a,
            b,
        )).can_be_used by {
            assert(!at(g, a, b).can_be_used);
        }
    }
    assert forall|x: int, y: int| is_room(w, h, x, y) implies #[trigger] reached(
        g2,
        w,
        h,
        sx,
        sy,
        x,
        y,
        solution.len() as int,
    ) by {
        assert(reached(g, w, h, sx, sy, x, y, solution.len() as int));
        lemma_reached_extends(
            g,
            g2,
            w,
            h,
            sx,
            sy,
            x,
            y,
            solution.len() as int,
            solution.len() as int,
        );
    }
}

/// The two mazes agree in the kind, the identity and the usability of every
/// tile.
pub open spec fn same_tiles(g: Grid, g2: Grid, w: int, h: int) -> bool {
    &&& is_grid(g, w, h)
    &&& is_grid(g2, w, h)
    &&& forall|x: int, y: int|
        in_grid(w, h, x, y) ==> {
            &&& (#[trigger] at(g2, x, y)).tile_type == at(g, x, y).tile_type
            &&& at(g2, x, y).can_be_used == at(g, x, y).can_be_used
            &&& at(g2, x, y).id == at(g, x, y).id
        }
}

/// A maze that agrees with a finished maze in the kind, the identity and the
/// usability of every tile is finished too.
pub proof fn lemma_same_tiles_finished(
    g: Grid,
    g2: Grid,
    w: int,
    h: int,
    solution: Seq<(usize, usize)>,
)
    requires
        finished_maze(g, w, h, solution),
        same_tiles(g, g2, w, h),
    ensures
        finished_maze(g2, w, h, solution),
{
    reveal(maze_frame);
    let sx = solution[0].0 as int;
    let sy = solution[0].1 as int;
    let ex = solution.last().0 as int;
    let ey = solution.last().1 as int;
    assert(extends(g, g2, w, h));
    assert(maze_frame(g2, w, h)) by {
        assert forall|a: int, b: int| in_grid(w, h, a, b) implies tile_ok(
            w,
            h,
            a,
            b,
            #[trigger] at(g2, a, b),
        ) by {
            assert(tile_ok(w, h, a, b, at(g, a, b)));
        }
    }
    lemma_corridor_extends(g, g2, w, h, solution);
    assert(start_at(g2, w, h, sx, sy)) by {
        assert forall|a: int, b: int|
            in_grid(w, h, a, b) && (a != sx || b != sy) implies (#[trigger] at(g2, a, b)).tile_type
            != TileType::Start by {
            assert(at(g, a, b).tile_type != TileType::Start);
        }
    }
    assert(exit_at(g2, w, h, ex, ey)) by {
        assert forall|a: int, b: int|
            in_grid(w, h, a, b) && (a != ex || b != ey) implies (#[trigger] at(g2, a, b)).tile_type
            != TileType::Exit by {
            assert(at(g, a, b).tile_type != TileType::Exit);
        }
    }
    assert(all_taken(g2, w, h)) by {
        assert forall|a: int, b: int| in_grid(w, h, a, b) implies !(#[trigger] at(
            g2,
            a,
            b,
        )).can_be_used by {
            assert(!at(g, a, b).can_be_used);
        }
    }
    assert forall|x: int, y: int| is_room(w, h, x, y) implies #[trigger] reached(
        g2,
        w,
        h,
        sx,
        sy,
        x,
        y,
        solution.len() as int,
    ) by {
        assert(reached(g, w, h, sx, sy, x, y, solution.len() as int));
        lemma_reached_extends(
            g,
            g2,
            w,
            h,
            sx,
            sy,
            x,
            y,
            solution.len() as int,
            solution.len() as int,
        );
    }
    lemma_fully_connected_extends(g, g2, w, h, sx, sy);
}

/// The maze of a new game, as `create_new_maze` makes it from what generation
/// yields: with extra walls opened along the solution and the solution marked.
pub open spec fn game_maze(generated: (Grid, Seq<(usize, usize)>)) -> Grid {
    solution_marked(with_open_walls(generated.0, generated.1), generated.1)
}

} // verus!
