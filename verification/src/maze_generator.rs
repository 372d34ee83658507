//! Generation of a maze: the blank maze, the carving walk, the exit, the extra
//! walls, and the tiles for the screen.

use vstd::prelude::*;
pub use crate::amazingly_lost_data::{LARGE_MAZE, MEDIUM_MAZE, SMALL_MAZE, VERY_VERY_LARGE_MAZE};
pub use crate::open_walls::{DISTANCE_FROM_EXIT, NEXT_OPEN_WALL};
pub use crate::painting::{GameTile, PlayerTile};
pub use crate::player::{CollisionTile, CollisionType, SPRITE_SIZE_MAZE};
use crate::amazingly_lost_data::AmazinglyLostData;
use crate::carve::{
    candidates, carved_out, carving, direction_if_open, lemma_candidate_is_open, lemma_no_candidate,
    lemma_usable_cells_bound, lemma_walk_begins, lemma_walk_ends, popped, usable_cells,
};
use crate::corridor::{lemma_frame_is_grid, maze_frame, tile_ok, unit_step};
use crate::finished::{
    finished_maze, game_maze, lemma_exit_placed, lemma_open_walls_finish, lemma_same_tiles_finished,
    lemma_solution_inside, maze_from_choices, same_tiles,
};
use crate::grid::{
    at, grid_height, grid_width, has_shape, in_grid, interior, is_grid, is_room,
    lemma_shape_of_view, on_border, view_grid,
};
use crate::layout::{
    blank_grid, blank_row, initial_grid, initial_tile, lemma_area_bound, lemma_cell_index_bound,
    lemma_nth_room_is_room, MAX_MAZE_SIZE, MIN_MAZE_SIZE, nth_room, room_count, valid_maze_size,
    with_kind, with_taken,
};
use crate::maze_tile::{MazeTile, TileType};
use crate::open_walls::{
    far_from_exit, lemma_frame_is_ringed, lemma_opening_direction, lemma_widened_ringed,
    open_walls_from, openable, opening_direction, path_inside, ringed, widened, with_open_walls,
};
use crate::painting::{
    colliders_of, game_tile, lemma_mark_one_more, lemma_marked_tiles, lemma_start_in_rows, painted,
    painted_row, path_in_grid, solution_marked, sprite_position, start_in_row, start_in_rows,
};
use crate::player::{Collider, Directions, Player, SpriteSize, Translation};
use crate::random::{draw_choices, random_below};
use crate::walk::{
    chosen_direction, lemma_budget_lasts, lemma_solution_is_long, lemma_walk_back,
    lemma_walk_choice, lemma_walk_on, lemma_walk_position, lemma_walk_rests, lemma_walk_unfolds,
    opened, Walk, walk_budget, walk_candidates, walk_distance, walk_done, walk_for, walk_start,
    walk_step, walked,
};

verus! {

/// Why a maze of the requested size cannot be made.
#[derive(Clone, Copy, Debug, PartialEq, Eq, Structural)]
pub enum MazeError {
    /// A dimension is below `MIN_MAZE_SIZE`: the maze would have no room for a
    /// start and an exit.
    TooSmall,
    /// A dimension is above `MAX_MAZE_SIZE`.
    TooLarge,
}

/// What `check_maze_size` answers for a width and a height.
pub open spec fn size_check(w: int, h: int) -> Result<(), MazeError> {
    if w < MIN_MAZE_SIZE || h < MIN_MAZE_SIZE {
        Err(MazeError::TooSmall)
    } else if w > MAX_MAZE_SIZE || h > MAX_MAZE_SIZE {
        Err(MazeError::TooLarge)
    } else {
        Ok(())
    }
}

/// Accepts the sizes for which a maze can be made.
pub fn check_maze_size(width: usize, height: usize) -> (r: Result<(), MazeError>)
    ensures
        r == size_check(width as int, height as int),
        r is Ok <==> valid_maze_size(width as int, height as int),
{
    if width < MIN_MAZE_SIZE || height < MIN_MAZE_SIZE {
        Err(MazeError::TooSmall)
    } else if width > MAX_MAZE_SIZE || height > MAX_MAZE_SIZE {
        Err(MazeError::TooLarge)
    } else {
        Ok(())
    }
}

/// The room that a start choice selects: the choice, reduced modulo the number
/// of rooms, counts the rooms in row-major scan order.
pub fn start_cell(width: usize, height: usize, start_choice: usize) -> (cell: (usize, usize))
    requires
        valid_maze_size(width as int, height as int),
    ensures
        (cell.0 as int, cell.1 as int) == nth_room(
            width as int,
            start_choice as int % room_count(width as int, height as int),
        ),
        is_room(width as int, height as int, cell.0 as int, cell.1 as int),
{
    let cols: usize = (width - 1) / 2;
    let rows: usize = (height - 1) / 2;
    proof {
        assert(0 < cols * rows <= 65435 * 65435) by (nonlinear_arith)
            requires
                2 <= cols <= 65435,
                2 <= rows <= 65435,
        ;
    }
    let rooms: usize = cols * rows;
    let k: usize = start_choice % rooms;
    proof {
        lemma_nth_room_is_room(width as int, height as int, k as int);
    }
    (1 + 2 * (k % cols), 1 + 2 * (k / cols))
}

/// Builds the maze before the start is chosen: tiles numbered in scan order, a
/// border ring, rooms on the odd cells and walls everywhere else.
pub fn blank_maze(width: usize, height: usize) -> (maze: Vec<Vec<MazeTile>>)
    requires
        valid_maze_size(width as int, height as int),
    ensures
        view_grid(maze) == blank_grid(width as int, height as int),
        has_shape(maze, width as int, height as int),
{
    let mut maze = Vec::<Vec<MazeTile>>::new();
    let mut tile_id: usize = 0;
    let mut y: usize = 0;
    proof {
        lemma_area_bound(width as int, height as int);
    }
    while y < height
        invariant
            valid_maze_size(width as int, height as int),
            y <= height,
            tile_id == y * width,
            width * height <= usize::MAX,
            maze@.len() == y,
            forall|j: int|
                0 <= j < y ==> (#[trigger] maze@[j])@ == blank_row(width as int, height as int, j),
        decreases height - y,
    {
        let mut maze_row = Vec::<MazeTile>::new();
        let mut x: usize = 0;
        proof {
            lemma_cell_index_bound(width as int, height as int, 0, y as int);
        }
        while x < width
            invariant
                valid_maze_size(width as int, height as int),
                y < height,
                x <= width,
                tile_id == y * width + x,
                width * height <= usize::MAX,
                maze_row@.len() == x,
                forall|i: int|
                    0 <= i < x ==> #[trigger] maze_row@[i] == initial_tile(
                        width as int,
                        height as int,
                        i,
                        y as int,
                    ),
            decreases width - x,
        {
            proof {
                lemma_cell_index_bound(width as int, height as int, x as int, y as int);
            }
            tile_id += 1;
            if y == 0 || y == height - 1 || x == 0 || x == width - 1 {
                maze_row.push(MazeTile::new(tile_id, TileType::Border));
            } else if x % 2 != 0 && y % 2 != 0 {
                maze_row.push(MazeTile::new(tile_id, TileType::Open));
            } else {
                maze_row.push(MazeTile::new(tile_id, TileType::Wall));
            }
            x += 1;
        }
        proof {
            lemma_cell_index_bound(width as int, height as int, 0, y as int);
            assert(maze_row@ =~= blank_row(width as int, height as int, y as int));
        }
        maze.push(maze_row);
        y += 1;
    }
    proof {
        assert(view_grid(maze) =~= blank_grid(width as int, height as int));
    }
    maze
}

/// Builds the maze that carving starts from, with the start on the room that
/// `start_choice` selects, and returns it with the start's coordinates.
pub fn initialize_maze_size(width: &usize, height: &usize, start_choice: usize) -> (r: (
    Vec<Vec<MazeTile>>,
    usize,
    usize,
))
    requires
        valid_maze_size(*width as int, *height as int),
    ensures
        (r.1 as int, r.2 as int) == nth_room(
            *width as int,
            start_choice as int % room_count(*width as int, *height as int),
        ),
        is_room(*width as int, *height as int, r.1 as int, r.2 as int),
        view_grid(r.0) == initial_grid(*width as int, *height as int, r.1 as int, r.2 as int),
        has_shape(r.0, *width as int, *height as int),
{
    let mut maze = blank_maze(*width, *height);
    let (start_x, start_y) = start_cell(*width, *height, start_choice);
    let ghost blank = view_grid(maze);
    maze[start_y][start_x].tile_type = TileType::Start;
    proof {
        assert(view_grid(maze) =~= with_kind(
            blank,
            start_x as int,
            start_y as int,
            TileType::Start,
        ));
    }
    let ghost started = view_grid(maze);
    maze[start_y][start_x].can_be_used = false;
    proof {
        assert(view_grid(maze) =~= with_taken(started, start_x as int, start_y as int));
    }
    (maze, start_x, start_y)
}

/// Lists the directions in which the walk can go from its position, in the
/// order rising `y`, falling `y`, rising `x`, falling `x`: each as the wall to
/// open and the room behind it.
pub fn possible_directions(pos_x: &usize, pos_y: &usize, maze: &Vec<Vec<MazeTile>>) -> (directions:
    Vec<(usize, usize, usize, usize)>)
    requires
        maze_frame(
            view_grid(*maze),
            grid_width(view_grid(*maze)),
            grid_height(view_grid(*maze)),
        ),
        interior(
            grid_width(view_grid(*maze)),
            grid_height(view_grid(*maze)),
            *pos_x as int,
            *pos_y as int,
        ),
    ensures
        directions@ == candidates(view_grid(*maze), *pos_x as int, *pos_y as int),
{
    let ghost g = view_grid(*maze);
    let ghost w = grid_width(g);
    let ghost h = grid_height(g);
    let ghost x = *pos_x as int;
    let ghost y = *pos_y as int;
    proof {
        reveal(maze_frame);
        lemma_shape_of_view(*maze, w, h);
        assert(maze.len() == h);
        assert(maze@[0]@.len() == w);
        assert(tile_ok(w, h, x, y + 1, at(g, x, y + 1)));
        assert(tile_ok(w, h, x, y - 1, at(g, x, y - 1)));
        assert(tile_ok(w, h, x + 1, y, at(g, x + 1, y)));
        assert(tile_ok(w, h, x - 1, y, at(g, x - 1, y)));
    }
    let mut directions = Vec::<(usize, usize, usize, usize)>::new();

    if maze[*pos_y + 1][*pos_x].tile_type == TileType::Wall {
        if maze[*pos_y + 2][*pos_x].can_be_used {
            directions.push((*pos_x, *pos_y + 1, *pos_x, *pos_y + 2));
        }
    }
    proof {
        assert(directions@ =~= direction_if_open(g, x, y, 0, 1));
    }

    if maze[*pos_y - 1][*pos_x].tile_type == TileType::Wall {
        if maze[*pos_y - 2][*pos_x].can_be_used {
            directions.push((*pos_x, *pos_y - 1, *pos_x, *pos_y - 2));
        }
    }
    proof {
        assert(directions@ =~= direction_if_open(g, x, y, 0, 1) + direction_if_open(
            g,
            x,
            y,
            0,
            -1,
        ));
    }

    if maze[*pos_y][*pos_x + 1].tile_type == TileType::Wall {
        if maze[*pos_y][*pos_x + 2].can_be_used {
            directions.push((*pos_x + 1, *pos_y, *pos_x + 2, *pos_y));
        }
    }
    proof {
        assert(directions@ =~= direction_if_open(g, x, y, 0, 1) + direction_if_open(
            g,
            x,
            y,
            0,
            -1,
        ) + direction_if_open(g, x, y, 1, 0));
    }

    if maze[*pos_y][*pos_x - 1].tile_type == TileType::Wall {
        if maze[*pos_y][*pos_x - 2].can_be_used {
            directions.push((*pos_x - 1, *pos_y, *pos_x - 2, *pos_y));
        }
    }
    proof {
        assert(directions@ =~= candidates(g, x, y));
    }
    directions
}

/// Takes the direction that `choice` selects among `directions`, opens its wall
/// and returns the cell to go to and the wall: the cell's coordinates first.
/// Where there is no direction, the cell is the position itself, the wall is
/// (0, 0) and the maze stays as it is.
pub fn get_new_direction(
    pos_x: &usize,
    pos_y: &usize,
    directions: &Vec<(usize, usize, usize, usize)>,
    maze: &mut Vec<Vec<MazeTile>>,
    choice: usize,
) -> (r: (usize, usize, usize, usize))
    requires
        forall|i: int|
            0 <= i < directions@.len() ==> in_grid(
                grid_width(view_grid(*old(maze))),
                grid_height(view_grid(*old(maze))),
                (#[trigger] directions@[i]).0 as int,
                directions@[i].1 as int,
            ),
        is_grid(
            view_grid(*old(maze)),
            grid_width(view_grid(*old(maze))),
            grid_height(view_grid(*old(maze))),
        ),
    ensures
        ({
            let d = chosen_direction(*pos_x as int, *pos_y as int, directions@, choice);
            &&& r == (d.2, d.3, d.0, d.1)
            &&& view_grid(*final(maze)) == opened(view_grid(*old(maze)), d)
        }),
{
    let ghost g = view_grid(*maze);
    let ghost w = grid_width(g);
    let ghost h = grid_height(g);
    let mut direction = (0usize, 0usize, *pos_x, *pos_y);

    if directions.len() == 1 {
        direction = directions[0];
        assert(choice as int % 1 == 0);
    } else if directions.len() > 1 {
        direction = directions[choice % directions.len()];
    }
    let wall_x = direction.0;
    let wall_y = direction.1;
    let next_x = direction.2;
    let next_y = direction.3;

    if wall_x != 0 && wall_y != 0 {
        proof {
            lemma_shape_of_view(*maze, w, h);
        }
        maze[wall_y][wall_x].tile_type = TileType::Open;
        proof {
            assert(view_grid(*maze) =~= with_kind(g, wall_x as int, wall_y as int, TileType::Open));
        }
    }
    (next_x, next_y, wall_x, wall_y)
}

/// Finds the directions in which the walk can go from its position, takes the
/// one that `choice` selects and opens its wall. Returns the room to go to and
/// the wall; where the walk can go nowhere, the position itself and (0, 0).
pub fn get_random_directions(
    pos_x: &usize,
    pos_y: &usize,
    maze: &mut Vec<Vec<MazeTile>>,
    choice: usize,
) -> (r: (usize, usize, usize, usize))
    requires
        maze_frame(
            view_grid(*old(maze)),
            grid_width(view_grid(*old(maze))),
            grid_height(view_grid(*old(maze))),
        ),
        interior(
            grid_width(view_grid(*old(maze))),
            grid_height(view_grid(*old(maze))),
            *pos_x as int,
            *pos_y as int,
        ),
    ensures
        ({
            let d = chosen_direction(
                *pos_x as int,
                *pos_y as int,
                candidates(view_grid(*old(maze)), *pos_x as int, *pos_y as int),
                choice,
            );
            &&& r == (d.2, d.3, d.0, d.1)
            &&& view_grid(*final(maze)) == opened(view_grid(*old(maze)), d)
        }),
{
    let directions = possible_directions(pos_x, pos_y, maze);
    proof {
        let g = view_grid(*maze);
        lemma_frame_is_grid(g, grid_width(g), grid_height(g));
        assert forall|i: int| 0 <= i < directions@.len() implies in_grid(
            grid_width(g),
            grid_height(g),
            (#[trigger] directions@[i]).0 as int,
            directions@[i].1 as int,
        ) by {
            let d = lemma_candidate_is_open(g, *pos_x as int, *pos_y as int, i);
        }
    }
    get_new_direction(pos_x, pos_y, &directions, maze, choice)
}

/// The state of the walk that the generator's variables hold.
pub open spec fn walk_of(
    maze: Vec<Vec<MazeTile>>,
    stack: Vec<(usize, usize)>,
    best: Vec<(usize, usize)>,
    used: usize,
) -> Walk {
    Walk { grid: view_grid(maze), stack: stack@, best: best@, used: used as nat }
}

/// Copies a path.
pub fn copy_path(path: &Vec<(usize, usize)>) -> (copy: Vec<(usize, usize)>)
    ensures
        copy@ == path@,
{
    let mut copy = Vec::<(usize, usize)>::new();
    let mut i: usize = 0;
    while i < path.len()
        invariant
            i <= path@.len(),
            copy@ == path@.subrange(0, i as int),
        decreases path@.len() - i,
    {
        copy.push(path[i]);
        i += 1;
        proof {
            assert(copy@ =~= path@.subrange(0, i as int));
        }
    }
    proof {
        assert(copy@ =~= path@);
    }
    copy
}

/// Carves the maze by a backtracking walk from the start, and records the
/// longest corridor that the walk's stack has been as the solution.
///
/// The walk goes through a wall into a room that can still be used, wherever
/// there is one next to its position, and takes its `k`-th such step in the
/// direction that `choices[k]` selects among those that are open; when the
/// choices are used up it takes the first open direction. Where no direction is
/// open it steps back to the room before, and it ends when it is back at the
/// start with no direction open.
pub fn set_maze_tile_for_game(
    pos_x: &mut usize,
    pos_y: &mut usize,
    maze: &mut Vec<Vec<MazeTile>>,
    solution_path: &mut Vec<(usize, usize)>,
    choices: &Vec<usize>,
)
    requires
        valid_maze_size(
            grid_width(view_grid(*old(maze))),
            grid_height(view_grid(*old(maze))),
        ),
        is_room(
            grid_width(view_grid(*old(maze))),
            grid_height(view_grid(*old(maze))),
            *old(pos_x) as int,
            *old(pos_y) as int,
        ),
        view_grid(*old(maze)) == initial_grid(
            grid_width(view_grid(*old(maze))),
            grid_height(view_grid(*old(maze))),
            *old(pos_x) as int,
            *old(pos_y) as int,
        ),
        old(solution_path)@ == seq![(*old(pos_x), *old(pos_y))],
    ensures
        ({
            let w = grid_width(view_grid(*old(maze)));
            let h = grid_height(view_grid(*old(maze)));
            let end = walked(w, h, *old(pos_x) as int, *old(pos_y) as int, choices@);
            &&& view_grid(*final(maze)) == end.grid
            &&& final(solution_path)@ == end.best
            &&& *final(pos_x) == *old(pos_x)
            &&& *final(pos_y) == *old(pos_y)
            &&& has_shape(*final(maze), w, h)
            &&& carved_out(
                view_grid(*final(maze)),
                w,
                h,
                *old(pos_x) as int,
                *old(pos_y) as int,
                final(solution_path)@,
            )
            &&& final(solution_path)@.len() >= 3
            &&& final(solution_path)@.last() != final(solution_path)@[0]
        }),
{
    let ghost g0 = view_grid(*maze);
    let ghost w = grid_width(g0);
    let ghost h = grid_height(g0);
    let ghost sx = *pos_x as int;
    let ghost sy = *pos_y as int;
    let ghost begin = walk_start(w, h, sx, sy);
    let ghost budget = walk_budget(w, h);
    let ghost usable0 = usable_cells(g0, w, h).len();
    let ghost mut steps: nat = 0;
    let mut tmp_path = copy_path(solution_path);
    let mut used: usize = 0;
    proof {
        lemma_walk_begins(w, h, sx, sy);
        lemma_shape_of_view(*maze, w, h);
        lemma_usable_cells_bound(g0, w, h);
        assert(walk_of(*maze, tmp_path, *solution_path, used) == begin);
    }
    loop
        invariant
            valid_maze_size(w, h),
            has_shape(*maze, w, h),
            grid_width(view_grid(*maze)) == w,
            grid_height(view_grid(*maze)) == h,
            carving(view_grid(*maze), w, h, sx, sy, tmp_path@, solution_path@),
            tmp_path@.len() > 0,
            tmp_path@.last() == (*pos_x, *pos_y),
            used <= choices@.len(),
            budget == walk_budget(w, h),
            usable0 <= w * h,
            usable_cells(view_grid(*maze), w, h).finite(),
            2 * steps + walk_distance(view_grid(*maze), w, h, tmp_path@) == 4 * usable0 + 1,
            walk_for(begin, choices@, budget) == walk_for(
                walk_of(*maze, tmp_path, *solution_path, used),
                choices@,
                (budget - steps) as nat,
            ),
        ensures
            walk_done(walk_of(*maze, tmp_path, *solution_path, used)),
        decreases walk_distance(view_grid(*maze), w, h, tmp_path@),
    {
        let ghost g = view_grid(*maze);
        let ghost now = walk_of(*maze, tmp_path, *solution_path, used);
        let x = *pos_x;
        let y = *pos_y;
        let choice = if used < choices.len() {
            choices[used]
        } else {
            0
        };
        proof {
            lemma_walk_position(g, w, h, sx, sy, now.stack, now.best);
            lemma_budget_lasts(w, h, steps, walk_distance(g, w, h, now.stack), usable0);
        }
        let ghost dir = lemma_walk_choice(g, w, h, sx, sy, now.stack, now.best, choice);
        let ghost d = chosen_direction(x as int, y as int, walk_candidates(now), choice);
        let (next_x, next_y, wall_x, wall_y) = get_random_directions(&x, &y, maze, choice);
        proof {
            lemma_shape_of_view(*maze, w, h);
            assert(at(view_grid(*maze), x as int, y as int) == maze@[y as int]@[x as int]);
            assert(at(view_grid(*maze), next_x as int, next_y as int)
                == maze@[next_y as int]@[next_x as int]);
        }
        if maze[next_y][next_x].id == maze[y][x].id {
            if tmp_path.len() > 1 {
                tmp_path.pop();
                tmp_path.pop();
                let last = tmp_path[tmp_path.len() - 1];
                *pos_x = last.0;
                *pos_y = last.1;
                proof {
                    assert(tmp_path@ =~= popped(now.stack));
                    lemma_walk_back(now, w, h, sx, sy, choices@);
                    lemma_walk_unfolds(now, choices@, (budget - steps) as nat);
                    steps = steps + 1;
                }
            } else {
                break ;
            }
        } else {
            let ghost g1 = view_grid(*maze);
            maze[next_y][next_x].can_be_used = false;
            tmp_path.push((wall_x, wall_y));
            tmp_path.push((next_x, next_y));
            *pos_x = next_x;
            *pos_y = next_y;
            if tmp_path.len() > solution_path.len() {
                *solution_path = copy_path(&tmp_path);
            }
            if used < choices.len() {
                used += 1;
            }
            proof {
                assert(view_grid(*maze) =~= with_taken(g1, next_x as int, next_y as int));
                lemma_walk_on(now, w, h, sx, sy, choices@, dir);
                lemma_walk_unfolds(now, choices@, (budget - steps) as nat);
                lemma_shape_of_view(*maze, w, h);
                assert(walk_step(now, choices@) == walk_of(*maze, tmp_path, *solution_path, used));
                steps = steps + 1;
            }
        }
    }
    proof {
        let end = walk_of(*maze, tmp_path, *solution_path, used);
        lemma_walk_position(view_grid(*maze), w, h, sx, sy, tmp_path@, solution_path@);
        lemma_no_candidate(view_grid(*maze), sx, sy);
        lemma_walk_ends(view_grid(*maze), w, h, sx, sy, tmp_path@, solution_path@);
        lemma_solution_is_long(view_grid(*maze), w, h, sx, sy, solution_path@);
        lemma_walk_rests(end, choices@, (budget - steps) as nat);
    }
}

/// Generates the maze of the given size that the choices determine.
///
/// The start stands on the room that `start_choice` selects, the carving walk
/// takes its steps as `choices` say, and the exit is placed at the end of the
/// longest corridor that the walk produced, which is returned as the solution.
/// The same size and the same choices give the same maze and the same solution.
/// A size below the smallest or above the largest is refused.
pub fn create_maze_from_choices(
    width: usize,
    height: usize,
    start_choice: usize,
    choices: &Vec<usize>,
) -> (r: Result<(Vec<Vec<MazeTile>>, Vec<(usize, usize)>), MazeError>)
    ensures
        size_check(width as int, height as int) matches Err(e) ==> r == Err::<
            (Vec<Vec<MazeTile>>, Vec<(usize, usize)>),
            MazeError,
        >(e),
        size_check(width as int, height as int) is Ok ==> r is Ok,
        r matches Ok((maze, solution)) ==> {
            &&& (view_grid(maze), solution@) == maze_from_choices(
                width as int,
                height as int,
                start_choice as int,
                choices@,
            )
            &&& has_shape(maze, width as int, height as int)
            &&& finished_maze(view_grid(maze), width as int, height as int, solution@)
        },
{
    match check_maze_size(width, height) {
        Err(e) => { return Err(e); },
        Ok(()) => {},
    }
    let mut solution_path = Vec::<(usize, usize)>::new();
    let (mut maze, mut pos_x, mut pos_y) = initialize_maze_size(&width, &height, start_choice);
    solution_path.push((pos_x, pos_y));
    proof {
        lemma_shape_of_view(maze, width as int, height as int);
        assert(solution_path@ =~= seq![(pos_x, pos_y)]);
    }
    set_maze_tile_for_game(&mut pos_x, &mut pos_y, &mut maze, &mut solution_path, choices);
    let (last_x, last_y) = solution_path[solution_path.len() - 1];
    let ghost carved_grid = view_grid(maze);
    proof {
        lemma_exit_placed(
            carved_grid,
            width as int,
            height as int,
            pos_x as int,
            pos_y as int,
            solution_path@,
        );
    }
    maze[last_y][last_x].tile_type = TileType::Exit;
    proof {
        assert(view_grid(maze) =~= with_kind(
            carved_grid,
            last_x as int,
            last_y as int,
            TileType::Exit,
        ));
        lemma_shape_of_view(maze, width as int, height as int);
    }
    Ok((maze, solution_path))
}

/// Generates a random maze of the given size with its solution: the start and
/// every step of the carving walk are chosen by the thread's random generator.
/// A size below the smallest or above the largest is refused.
pub fn create_random_maze(width: usize, height: usize) -> (r: Result<
    (Vec<Vec<MazeTile>>, Vec<(usize, usize)>),
    MazeError,
>)
    ensures
        size_check(width as int, height as int) matches Err(e) ==> r == Err::<
            (Vec<Vec<MazeTile>>, Vec<(usize, usize)>),
            MazeError,
        >(e),
        size_check(width as int, height as int) is Ok ==> r is Ok,
        r matches Ok((maze, solution)) ==> {
            &&& exists|start_choice: int, choices: Seq<usize>|
                (view_grid(maze), solution@) == #[trigger] maze_from_choices(
                    width as int,
                    height as int,
                    start_choice,
                    choices,
                )
            &&& has_shape(maze, width as int, height as int)
            &&& finished_maze(view_grid(maze), width as int, height as int, solution@)
        },
{
    match check_maze_size(width, height) {
        Err(e) => { return Err(e); },
        Ok(()) => {},
    }
    let cols: usize = (width - 1) / 2;
    let rows: usize = (height - 1) / 2;
    proof {
        assert(0 < cols * rows <= 65435 * 65435) by (nonlinear_arith)
            requires
                2 <= cols <= 65435,
                2 <= rows <= 65435,
        ;
    }
    let rooms: usize = cols * rows;
    let start_choice = random_below(rooms);
    let choices = draw_choices(rooms - 1);
    match create_maze_from_choices(width, height, start_choice, &choices) {
        Ok((maze, solution)) => {
            proof {
                assert((view_grid(maze), solution@) == maze_from_choices(
                    width as int,
                    height as int,
                    start_choice as int,
                    choices@,
                ));
            }
            Ok((maze, solution))
        },
        Err(e) => Err(e),
    }
}

/// Opens the wall (`wall_x`, `wall_y`) beside the cell (`pos_x`, `pos_y`) if it
/// and the two cells that flank it are standing walls, and then also the cell
/// one step further if that is a standing wall. Says whether it opened the wall.
pub fn open_wall_beside(
    maze: &mut Vec<Vec<MazeTile>>,
    pos_x: usize,
    pos_y: usize,
    wall_x: usize,
    wall_y: usize,
) -> (opened: bool)
    requires
        ringed(
            view_grid(*old(maze)),
            grid_width(view_grid(*old(maze))),
            grid_height(view_grid(*old(maze))),
        ),
        interior(
            grid_width(view_grid(*old(maze))),
            grid_height(view_grid(*old(maze))),
            pos_x as int,
            pos_y as int,
        ),
        unit_step(wall_x - pos_x, wall_y - pos_y),
    ensures
        opened == openable(
            view_grid(*old(maze)),
            pos_x as int,
            pos_y as int,
            wall_x - pos_x,
            wall_y - pos_y,
        ),
        view_grid(*final(maze)) == (if opened {
            widened(
                view_grid(*old(maze)),
                pos_x as int,
                pos_y as int,
                wall_x - pos_x,
                wall_y - pos_y,
            )
        } else {
            view_grid(*old(maze))
        }),
        ringed(
            view_grid(*final(maze)),
            grid_width(view_grid(*old(maze))),
            grid_height(view_grid(*old(maze))),
        ),
        maze_frame(
            view_grid(*old(maze)),
            grid_width(view_grid(*old(maze))),
            grid_height(view_grid(*old(maze))),
        ) ==> maze_frame(
            view_grid(*final(maze)),
            grid_width(view_grid(*old(maze))),
            grid_height(view_grid(*old(maze))),
        ),
{
    let ghost g = view_grid(*maze);
    let ghost w = grid_width(g);
    let ghost h = grid_height(g);
    let ghost dx = wall_x - pos_x;
    let ghost dy = wall_y - pos_y;
    proof {
        lemma_shape_of_view(*maze, w, h);
        assert(maze.len() == h);
        assert(maze@[0].len() == w);
        assert(at(g, wall_x as int, wall_y as int) == maze@[wall_y as int]@[wall_x as int]);
        assert(on_border(w, h, wall_x as int, wall_y as int) ==> at(
            g,
            wall_x as int,
            wall_y as int,
        ).tile_type != TileType::Wall);
    }
    let across_x: usize = if wall_y != pos_y {
        1
    } else {
        0
    };
    let across_y: usize = if wall_x != pos_x {
        1
    } else {
        0
    };
    if maze[wall_y][wall_x].tile_type == TileType::Wall && maze[wall_y - across_y][wall_x
        - across_x].tile_type == TileType::Wall && maze[wall_y + across_y][wall_x
        + across_x].tile_type == TileType::Wall {
        proof {
            lemma_widened_ringed(g, w, h, pos_x as int, pos_y as int, dx, dy);
        }
        maze[wall_y][wall_x].tile_type = TileType::Open;
        let ghost g1 = view_grid(*maze);
        proof {
            assert(g1 =~= with_kind(g, wall_x as int, wall_y as int, TileType::Open));
            lemma_shape_of_view(*maze, w, h);
        }
        let far_x = if wall_x > pos_x {
            wall_x + 1
        } else if wall_x < pos_x {
            wall_x - 1
        } else {
            wall_x
        };
        let far_y = if wall_y > pos_y {
            wall_y + 1
        } else if wall_y < pos_y {
            wall_y - 1
        } else {
            wall_y
        };
        if maze[far_y][far_x].tile_type == TileType::Wall {
            maze[far_y][far_x].tile_type = TileType::Open;
            proof {
                assert(view_grid(*maze) =~= with_kind(
                    g1,
                    far_x as int,
                    far_y as int,
                    TileType::Open,
                ));
            }
        }
        true
    } else {
        false
    }
}

/// Opens extra walls along the solution, so that the maze offers more than one
/// way.
///
/// The pass looks at every `NEXT_OPEN_WALL`-th cell of the solution. Beside a
/// cell whose row or column lies further than `DISTANCE_FROM_EXIT` from the
/// exit's it opens the first wall, in the order rising `y`, falling `y`, rising
/// `x`, falling `x`, that stands between two standing walls, and with it the cell
/// behind that wall if it is a standing wall. Where it opens nothing it looks at
/// the next cell instead. Where the solution holds no cell at which a wall can
/// be opened, the maze stays as it is.
pub fn create_random_open_walls(maze: &mut Vec<Vec<MazeTile>>, solution_path: &Vec<(usize, usize)>)
    requires
        ringed(
            view_grid(*old(maze)),
            grid_width(view_grid(*old(maze))),
            grid_height(view_grid(*old(maze))),
        ),
        solution_path@.len() > 0,
        path_inside(
            grid_width(view_grid(*old(maze))),
            grid_height(view_grid(*old(maze))),
            solution_path@,
        ),
    ensures
        view_grid(*final(maze)) == with_open_walls(view_grid(*old(maze)), solution_path@),
        has_shape(
            *final(maze),
            grid_width(view_grid(*old(maze))),
            grid_height(view_grid(*old(maze))),
        ),
        ringed(
            view_grid(*final(maze)),
            grid_width(view_grid(*old(maze))),
            grid_height(view_grid(*old(maze))),
        ),
        maze_frame(
            view_grid(*old(maze)),
            grid_width(view_grid(*old(maze))),
            grid_height(view_grid(*old(maze))),
        ) ==> maze_frame(
            view_grid(*final(maze)),
            grid_width(view_grid(*old(maze))),
            grid_height(view_grid(*old(maze))),
        ),
{
    let ghost g0 = view_grid(*maze);
    let ghost w = grid_width(g0);
    let ghost h = grid_height(g0);
    let ghost path = solution_path@;
    let (exit_x, exit_y) = solution_path[solution_path.len() - 1];
    let mut next_tile = NEXT_OPEN_WALL;
    proof {
        lemma_shape_of_view(*maze, w, h);
        assert(interior(w, h, exit_x as int, exit_y as int));
        assert(maze.len() == h);
        assert(maze@[0].len() == w);
    }
    while next_tile < solution_path.len()
        invariant
            w <= usize::MAX,
            h <= usize::MAX,
            path == solution_path@,
            path.len() > 0,
            (exit_x, exit_y) == path.last(),
            path_inside(w, h, path),
            ringed(view_grid(*maze), w, h),
            maze_frame(g0, w, h) ==> maze_frame(view_grid(*maze), w, h),
            h > 0,
            grid_width(view_grid(*maze)) == w,
            grid_height(view_grid(*maze)) == h,
            has_shape(*maze, w, h),
            with_open_walls(g0, path) == open_walls_from(view_grid(*maze), path, next_tile as nat),
        decreases path.len() - next_tile,
    {
        let ghost g = view_grid(*maze);
        let (pos_x, pos_y) = solution_path[next_tile];
        proof {
            lemma_opening_direction(g, pos_x as int, pos_y as int);
            assert(interior(w, h, pos_x as int, pos_y as int));
        }
        if !((pos_y < exit_y && (exit_y - pos_y) > DISTANCE_FROM_EXIT) || (pos_y > exit_y && (pos_y
            - exit_y) > DISTANCE_FROM_EXIT)) && !((pos_x < exit_x && (exit_x - pos_x)
            > DISTANCE_FROM_EXIT) || (pos_x > exit_x && (pos_x - exit_x) > DISTANCE_FROM_EXIT)) {
            proof {
                assert(!far_from_exit(pos_x as int, pos_y as int, exit_x as int, exit_y as int));
                assert(open_walls_from(g, path, next_tile as nat) == open_walls_from(
                    g,
                    path,
                    (next_tile + 1) as nat,
                ));
            }
            next_tile += 1;
        } else {
            proof {
                assert(far_from_exit(pos_x as int, pos_y as int, exit_x as int, exit_y as int));
            }
            let mut opened = open_wall_beside(maze, pos_x, pos_y, pos_x, pos_y + 1);
            if !opened {
                opened = open_wall_beside(maze, pos_x, pos_y, pos_x, pos_y - 1);
            }
            if !opened {
                opened = open_wall_beside(maze, pos_x, pos_y, pos_x + 1, pos_y);
            }
            if !opened {
                opened = open_wall_beside(maze, pos_x, pos_y, pos_x - 1, pos_y);
            }
            let ghost after = view_grid(*maze);
            proof {
                if opened {
                    let d = opening_direction(g, pos_x as int, pos_y as int)->0;
                    assert(after == widened(g, pos_x as int, pos_y as int, d.0, d.1));
                    assert(open_walls_from(g, path, next_tile as nat) == open_walls_from(
                        after,
                        path,
                        next_tile as nat + NEXT_OPEN_WALL as nat,
                    ));
                } else {
                    assert(opening_direction(g, pos_x as int, pos_y as int) is None);
                    assert(after == g);
                    assert(open_walls_from(g, path, next_tile as nat) == open_walls_from(
                        g,
                        path,
                        (next_tile + 1) as nat,
                    ));
                }
                lemma_shape_of_view(*maze, w, h);
            }
            if opened {
                if solution_path.len() - next_tile <= NEXT_OPEN_WALL {
                    proof {
                        assert(open_walls_from(
                            after,
                            path,
                            next_tile as nat + NEXT_OPEN_WALL as nat,
                        ) == after);
                        assert(open_walls_from(after, path, path.len()) == after);
                    }
                    next_tile = solution_path.len();
                } else {
                    next_tile += NEXT_OPEN_WALL;
                }
            } else {
                next_tile += 1;
            }
        }
    }
}

/// Marks the cells of the solution in the maze, and lists the tiles of the maze
/// as they are to be put on the screen: row by row, each with the place where it
/// is drawn and with the mark that tells what the agent runs into there. Records
/// where the start is drawn.
pub fn paint_the_maze(
    solution: &Vec<(usize, usize)>,
    maze: &mut Vec<Vec<MazeTile>>,
    amazing_data: &mut AmazinglyLostData,
) -> (tiles: Vec<GameTile>)
    requires
        is_grid(
            view_grid(*old(maze)),
            grid_width(view_grid(*old(maze))),
            grid_height(view_grid(*old(maze))),
        ),
        grid_width(view_grid(*old(maze))) <= MAX_MAZE_SIZE,
        grid_height(view_grid(*old(maze))) <= MAX_MAZE_SIZE,
        path_in_grid(
            grid_width(view_grid(*old(maze))),
            grid_height(view_grid(*old(maze))),
            solution@,
        ),
    ensures
        view_grid(*final(maze)) == solution_marked(view_grid(*old(maze)), solution@),
        has_shape(
            *final(maze),
            grid_width(view_grid(*old(maze))),
            grid_height(view_grid(*old(maze))),
        ),
        tiles@ == painted(view_grid(*final(maze)), grid_height(view_grid(*old(maze)))),
        final(amazing_data).starting_point_sprites == start_in_rows(
            view_grid(*final(maze)),
            grid_height(view_grid(*old(maze))),
            old(amazing_data).starting_point_sprites,
        ),
        final(amazing_data).maze_size == old(amazing_data).maze_size,
        final(amazing_data).maze_solution == old(amazing_data).maze_solution,
        final(amazing_data).exit_point_game == old(amazing_data).exit_point_game,
        final(amazing_data).player == old(amazing_data).player,
        final(amazing_data).is_generating_maze == old(amazing_data).is_generating_maze,
        final(amazing_data).is_loading_assets == old(amazing_data).is_loading_assets,
{
    let ghost g0 = view_grid(*maze);
    let ghost w = grid_width(g0);
    let ghost h = grid_height(g0);
    let ghost found0 = amazing_data.starting_point_sprites;
    proof {
        lemma_shape_of_view(*maze, w, h);
        assert(solution_marked(g0, solution@.take(0)) =~= g0) by {
            assert forall|b: int| 0 <= b < h implies #[trigger] solution_marked(
                g0,
                solution@.take(0),
            )[b] =~= g0[b] by {}
        }
    }
    let mut i: usize = 0;
    while i < solution.len()
        invariant
            i <= solution@.len(),
            is_grid(g0, w, h),
            w <= MAX_MAZE_SIZE,
            h <= MAX_MAZE_SIZE,
            path_in_grid(w, h, solution@),
            has_shape(*maze, w, h),
            view_grid(*maze) == solution_marked(g0, solution@.take(i as int)),
        decreases solution@.len() - i,
    {
        let (x, y) = solution[i];
        let ghost before = view_grid(*maze);
        proof {
            lemma_mark_one_more(g0, w, h, solution@, i as int);
        }
        maze[y][x].part_of_solution = true;
        proof {
            assert(view_grid(*maze) =~= before.update(
                y as int,
                before[y as int].update(
                    x as int,
                    MazeTile { part_of_solution: true, ..before[y as int][x as int] },
                ),
            ));
            lemma_mark_one_more(g0, w, h, solution@, i as int);
            assert(is_grid(solution_marked(g0, solution@.take(i as int + 1)), w, h)) by {
                assert forall|b: int| 0 <= b < h implies (#[trigger] solution_marked(
                    g0,
                    solution@.take(i as int + 1),
                )[b]).len() == w by {
                    assert(g0[b].len() == w);
                }
            }
            lemma_shape_of_view(*maze, w, h);
        }
        i += 1;
    }
    proof {
        assert(solution@.take(i as int) =~= solution@);
    }
    let ghost g = view_grid(*maze);
    let mut tiles = Vec::<GameTile>::new();
    let mut pos_y: i64 = SPRITE_SIZE_MAZE;
    let mut y: usize = 0;
    while y < maze.len()
        invariant
            y <= h,
            h == maze@.len(),
            w <= MAX_MAZE_SIZE,
            h <= MAX_MAZE_SIZE,
            has_shape(*maze, w, h),
            view_grid(*maze) == g,
            pos_y == (y + 1) * SPRITE_SIZE_MAZE,
            tiles@ == painted(g, y as int),
            amazing_data.starting_point_sprites == start_in_rows(g, y as int, found0),
            amazing_data.maze_size == old(amazing_data).maze_size,
            amazing_data.maze_solution == old(amazing_data).maze_solution,
            amazing_data.exit_point_game == old(amazing_data).exit_point_game,
            amazing_data.player == old(amazing_data).player,
            amazing_data.is_generating_maze == old(amazing_data).is_generating_maze,
            amazing_data.is_loading_assets == old(amazing_data).is_loading_assets,
        decreases h - y,
    {
        let mut pos_x: i64 = SPRITE_SIZE_MAZE;
        let mut x: usize = 0;
        let ghost done = tiles@;
        let ghost found_before = amazing_data.starting_point_sprites;
        proof {
            assert(g[y as int] == maze@[y as int]@);
        }
        while x < maze[y].len()
            invariant
                y < h,
                x <= w,
                h == maze@.len(),
                h == g.len(),
                w == maze@[y as int]@.len(),
                w <= MAX_MAZE_SIZE,
                h <= MAX_MAZE_SIZE,
                g[y as int] == maze@[y as int]@,
                pos_x == (x + 1) * SPRITE_SIZE_MAZE,
                pos_y == (y + 1) * SPRITE_SIZE_MAZE,
                tiles@ == done + painted_row(g, y as int).take(x as int),
                amazing_data.starting_point_sprites == start_in_row(
                    g[y as int],
                    y as int,
                    x as int,
                    found_before,
                ),
                amazing_data.maze_size == old(amazing_data).maze_size,
                amazing_data.maze_solution == old(amazing_data).maze_solution,
                amazing_data.exit_point_game == old(amazing_data).exit_point_game,
                amazing_data.player == old(amazing_data).player,
                amazing_data.is_generating_maze == old(amazing_data).is_generating_maze,
                amazing_data.is_loading_assets == old(amazing_data).is_loading_assets,
            decreases w - x,
        {
            let tile_type = maze[y][x].tile_type;
            let translation = Translation { x: pos_x, y: pos_y };
            let collision = match tile_type {
                TileType::Border | TileType::Wall => Some(
                    CollisionTile { collision_type: CollisionType::CollisionWall },
                ),
                TileType::Start => {
                    amazing_data.starting_point_sprites = (pos_x, pos_y);
                    Some(CollisionTile { collision_type: CollisionType::CollisionStart })
                },
                TileType::Exit => Some(
                    CollisionTile { collision_type: CollisionType::CollisionExit },
                ),
                TileType::Open => None,
            };
            tiles.push(GameTile { translation, tile_type, collision });
            proof {
                assert(at(g, x as int, y as int) == maze@[y as int]@[x as int]);
                assert(painted_row(g, y as int).take(x as int + 1) =~= painted_row(
                    g,
                    y as int,
                ).take(x as int).push(game_tile(g, x as int, y as int)));
                assert(tiles@ =~= done + painted_row(g, y as int).take(x as int + 1));
            }
            pos_x += SPRITE_SIZE_MAZE;
            x += 1;
        }
        proof {
            assert(painted_row(g, y as int).take(x as int) =~= painted_row(g, y as int));
        }
        pos_y += SPRITE_SIZE_MAZE;
        y += 1;
    }
    tiles
}

/// Gives the agent's tile: the agent, drawn on the start.
pub fn place_player_in_maze(amazing_data: &AmazinglyLostData) -> (tile: PlayerTile)
    ensures
        tile.translation == (Translation {
            x: amazing_data.starting_point_sprites.0,
            y: amazing_data.starting_point_sprites.1,
        }),
        tile.player == amazing_data.player,
{
    PlayerTile {
        translation: Translation {
            x: amazing_data.starting_point_sprites.0,
            y: amazing_data.starting_point_sprites.1,
        },
        player: amazing_data.player,
    }
}

/// Lists the colliders that the tiles on the screen make: one for every tile
/// that carries a mark, one tile wide and high, in the order of the tiles.
pub fn maze_colliders(tiles: &Vec<GameTile>) -> (colliders: Vec<Collider>)
    ensures
        colliders@ == colliders_of(tiles@),
{
    let mut colliders = Vec::<Collider>::new();
    let mut i: usize = 0;
    while i < tiles.len()
        invariant
            i <= tiles@.len(),
            colliders@ == colliders_of(tiles@.take(i as int)),
        decreases tiles@.len() - i,
    {
        let tile = tiles[i];
        proof {
            assert(tiles@.take(i as int + 1).drop_last() =~= tiles@.take(i as int));
            assert(tiles@.take(i as int + 1).last() == tile);
        }
        if let Some(mark) = tile.collision {
            colliders.push(
                Collider {
                    translation: tile.translation,
                    size: SpriteSize { x: SPRITE_SIZE_MAZE, y: SPRITE_SIZE_MAZE },
                    tile: mark,
                },
            );
        }
        i += 1;
    }
    proof {
        assert(tiles@.take(i as int) =~= tiles@);
    }
    colliders
}

/// The agent as a new maze leaves it: at rest and facing as before, with the
/// coordinates of the start cell recorded as the position it last arrived at,
/// and with the place where the start is drawn as its target.
pub open spec fn placed_on_start(player: Player, start: (usize, usize)) -> Player {
    Player {
        position_x: start.0 as i64,
        position_y: start.1 as i64,
        moving: Directions::NoDirection,
        direction: player.direction,
        next_position_x: sprite_position(start.0 as int, start.1 as int).x,
        next_position_y: sprite_position(start.0 as int, start.1 as int).y,
    }
}

/// What `check_maze_size` answers for the size that the game's state asks for.
pub open spec fn requested_size_check(data: AmazinglyLostData) -> Result<(), MazeError> {
    size_check(data.maze_size.0 as int, data.maze_size.1 as int)
}

/// Makes the maze of a new game.
///
/// Generates a random maze of the size that the game's state asks for, opens
/// extra walls along its solution, marks the solution, and lists the tiles to
/// put on the screen. Records the solution, the exit and the place of the start
/// in the game's state. Puts the agent at rest with the place of the start as its
/// target, and records the start cell as the position it last arrived at. Returns the
/// maze, the tiles and the agent's tile. A size below the smallest or above the
/// largest is refused, and the game's state then stays as it is.
pub fn create_new_maze(amazing_data: &mut AmazinglyLostData) -> (r: Result<
    (Vec<Vec<MazeTile>>, Vec<GameTile>, PlayerTile),
    MazeError,
>)
    ensures
        requested_size_check(*old(amazing_data)) matches Err(e) ==> r == Err::<
            (Vec<Vec<MazeTile>>, Vec<GameTile>, PlayerTile),
            MazeError,
        >(e),
        requested_size_check(*old(amazing_data)) is Ok ==> r is Ok,
        r is Err ==> {
            &&& final(amazing_data).maze_solution == old(amazing_data).maze_solution
            &&& final(amazing_data).starting_point_sprites == old(
                amazing_data
            ).starting_point_sprites
            &&& final(amazing_data).exit_point_game == old(amazing_data).exit_point_game
            &&& final(amazing_data).player == old(amazing_data).player
        },
        final(amazing_data).maze_size == old(amazing_data).maze_size,
        final(amazing_data).is_generating_maze == old(amazing_data).is_generating_maze,
        final(amazing_data).is_loading_assets == old(amazing_data).is_loading_assets,
        r matches Ok((maze, tiles, player_tile)) ==> {
            let w = old(amazing_data).maze_size.0 as int;
            let h = old(amazing_data).maze_size.1 as int;
            let solution = final(amazing_data).maze_solution@;
            let start = sprite_position(solution[0].0 as int, solution[0].1 as int);
            &&& has_shape(maze, w, h)
            &&& finished_maze(view_grid(maze), w, h, solution)
            &&& exists|start_choice: int, choices: Seq<usize>|
                solution == (#[trigger] maze_from_choices(w, h, start_choice, choices)).1
                    && view_grid(maze) == game_maze(maze_from_choices(w, h, start_choice, choices))
            &&& forall|i: int|
                0 <= i < solution.len() ==> at(
                    view_grid(maze),
                    (#[trigger] solution[i]).0 as int,
                    solution[i].1 as int,
                ).part_of_solution
            &&& tiles@ == painted(view_grid(maze), h)
            &&& final(amazing_data).exit_point_game == solution.last()
            &&& final(amazing_data).starting_point_sprites == (start.x, start.y)
            &&& final(amazing_data).player == placed_on_start(old(amazing_data).player, solution[0])
            &&& player_tile == (PlayerTile {
                translation: start,
                player: final(amazing_data).player,
            })
        },
{
    let width = amazing_data.maze_size.0 as usize;
    let height = amazing_data.maze_size.1 as usize;
    let ghost w = width as int;
    let ghost h = height as int;
    let (mut maze, solution) = match create_random_maze(width, height) {
        Ok(generated) => generated,
        Err(e) => { return Err(e); },
    };
    let ghost generated = view_grid(maze);
    let ghost (start_choice, choices) = choose|start_choice: int, choices: Seq<usize>|
        (generated, solution@) == #[trigger] maze_from_choices(w, h, start_choice, choices);
    proof {
        reveal(maze_frame);
        lemma_shape_of_view(maze, w, h);
        lemma_solution_inside(generated, w, h, solution@);
        lemma_frame_is_ringed(generated, w, h);
    }

    create_random_open_walls(&mut maze, &solution);
    let ghost opened = view_grid(maze);
    proof {
        lemma_open_walls_finish(generated, w, h, solution@);
        lemma_shape_of_view(maze, w, h);
        lemma_solution_inside(opened, w, h, solution@);
        assert(path_in_grid(w, h, solution@)) by {
            assert forall|i: int| 0 <= i < solution@.len() implies in_grid(
                w,
                h,
                (#[trigger] solution@[i]).0 as int,
                solution@[i].1 as int,
            ) by {
                assert(interior(w, h, solution@[i].0 as int, solution@[i].1 as int));
            }
        }
    }

    let tiles = paint_the_maze(&solution, &mut maze, amazing_data);
    proof {
        let marked = view_grid(maze);
        let sx = solution@[0].0 as int;
        let sy = solution@[0].1 as int;
        lemma_marked_tiles(opened, w, h, solution@);
        assert(same_tiles(opened, marked, w, h));
        lemma_same_tiles_finished(opened, marked, w, h, solution@);
        lemma_start_in_rows(marked, w, h, sx, sy, h, old(amazing_data).starting_point_sprites);
        assert(marked == game_maze(maze_from_choices(w, h, start_choice, choices)));
    }

    let starting_point = solution[0];
    proof {
        assert(interior(w, h, solution@[0].0 as int, solution@[0].1 as int));
    }
    amazing_data.player.position_x = starting_point.0 as i64;
    amazing_data.player.position_y = starting_point.1 as i64;
    amazing_data.player.next_position_x = amazing_data.starting_point_sprites.0;
    amazing_data.player.next_position_y = amazing_data.starting_point_sprites.1;
    amazing_data.player.moving = Directions::NoDirection;
    let player_tile = place_player_in_maze(amazing_data);

    amazing_data.exit_point_game = solution[solution.len() - 1];
    amazing_data.maze_solution = solution;
    Ok((maze, tiles, player_tile))
}

} // verus!
