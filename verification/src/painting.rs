//! The tiles of a maze as they are put on the screen, and the colliders they make.

use vstd::prelude::*;
use crate::grid::{at, Grid, in_grid, is_grid};
use crate::maze_tile::{MazeTile, TileType};
use crate::player::{
    Collider, CollisionTile, CollisionType, Player, SPRITE_SIZE_MAZE, SpriteSize, Translation,
};

verus! {

/// A tile of the maze as it is put on the screen: where it is drawn, what it
/// is, and the mark it carries if the agent can run into it.
#[derive(Clone, Copy, Debug, PartialEq, Eq, Structural)]
pub struct GameTile {
    pub translation: Translation,
    pub tile_type: TileType,
    pub collision: Option<CollisionTile>,
}

/// The agent as it is put on the screen: where it is drawn, and its state.
#[derive(Clone, Copy, Debug, PartialEq, Eq, Structural)]
pub struct PlayerTile {
    pub translation: Translation,
    pub player: Player,
}

/// Where the tile of the cell (`x`, `y`) is drawn: tiles lie side by side, the
/// first one tile away from the origin along both axes.
pub open spec fn sprite_position(x: int, y: int) -> Translation {
    Translation {
        x: ((x + 1) * SPRITE_SIZE_MAZE) as i64,
        y: ((y + 1) * SPRITE_SIZE_MAZE) as i64,
    }
}

/// The mark that a tile of the given kind carries: borders and walls are walls
/// to the agent, the start and the exit are marked as such, and open cells
/// carry no mark.
pub open spec fn collision_of(kind: TileType) -> Option<CollisionTile> {
    match kind {
        TileType::Border | TileType::Wall => Some(
            CollisionTile { collision_type: CollisionType::CollisionWall },
        ),
        TileType::Start => Some(CollisionTile { collision_type: CollisionType::CollisionStart }),
        TileType::Exit => Some(CollisionTile { collision_type: CollisionType::CollisionExit }),
        TileType::Open => None,
    }
}

/// The tile of the cell (`x`, `y`) as it is put on the screen.
pub open spec fn game_tile(g: Grid, x: int, y: int) -> GameTile {
    GameTile {
        translation: sprite_position(x, y),
        tile_type: at(g, x, y).tile_type,
        collision: collision_of(at(g, x, y).tile_type),
    }
}

/// The tiles of row `y` as they are put on the screen, in the order of the row.
pub open spec fn painted_row(g: Grid, y: int) -> Seq<GameTile> {
    Seq::new(g[y].len(), |x: int| game_tile(g, x, y))
}

/// The tiles of the first `rows` rows as they are put on the screen, row by row.
pub open spec fn painted(g: Grid, rows: int) -> Seq<GameTile>
    decreases rows,
{
    if rows <= 0 {
        Seq::empty()
    } else {
        painted(g, rows - 1) + painted_row(g, rows - 1)
    }
}

/// Where the start is drawn, going by the first `n` tiles of a row: the place of
/// the last of them that holds a start, or `found` where none does.
pub open spec fn start_in_row(row: Seq<MazeTile>, y: int, n: int, found: (i64, i64)) -> (i64, i64)
    decreases n,
{
    if n <= 0 {
        found
    } else if row[n - 1].tile_type == TileType::Start {
        (sprite_position(n - 1, y).x, sprite_position(n - 1, y).y)
    } else {
        start_in_row(row, y, n - 1, found)
    }
}

/// Where the start is drawn, going by the first `rows` rows of the maze: the
/// place of the last tile in scan order that holds a start, or `found` where
/// none does.
pub open spec fn start_in_rows(g: Grid, rows: int, found: (i64, i64)) -> (i64, i64)
    decreases rows,
{
    if rows <= 0 {
        found
    } else {
        start_in_row(
            g[rows - 1],
            rows - 1,
            g[rows - 1].len() as int,
            start_in_rows(g, rows - 1, found),
        )
    }
}

/// The maze with every cell of the solution marked as part of it.
pub open spec fn solution_marked(g: Grid, solution: Seq<(usize, usize)>) -> Grid {
    Seq::new(
        g.len(),
        |y: int|
            Seq::new(
                g[y].len(),
                |x: int|
                    MazeTile {
                        part_of_solution: g[y][x].part_of_solution || solution.contains(
                            (x as usize, y as usize),
                        ),
                        ..g[y][x]
                    },
            ),
    )
}

/// Every cell of the path lies in the maze.
pub open spec fn path_in_grid(w: int, h: int, path: Seq<(usize, usize)>) -> bool {
    forall|i: int|
        0 <= i < path.len() ==> in_grid(w, h, (#[trigger] path[i]).0 as int, path[i].1 as int)
}

/// The collider that a tile on the screen makes, one tile wide and high.
pub open spec fn collider_of(tile: GameTile) -> Collider {
    Collider {
        translation: tile.translation,
        size: SpriteSize { x: SPRITE_SIZE_MAZE, y: SPRITE_SIZE_MAZE },
        tile: tile.collision->0,
    }
}

/// The colliders that the tiles on the screen make: one for each tile that
/// carries a mark, in the order of the tiles.
pub open spec fn colliders_of(tiles: Seq<GameTile>) -> Seq<Collider>
    decreases tiles.len(),
{
    if tiles.len() == 0 {
        Seq::empty()
    } else if tiles.last().collision is Some {
        colliders_of(tiles.drop_last()).push(collider_of(tiles.last()))
    } else {
        colliders_of(tiles.drop_last())
    }
}

/// Marking one more cell of the solution marks that cell and changes nothing
/// else.
pub proof fn lemma_mark_one_more(
    g: Grid,
    w: int,
    h: int,
    solution: Seq<(usize, usize)>,
    i: int,
)
    requires
        is_grid(g, w, h),
        w <= usize::MAX,
        h <= usize::MAX,
        0 <= i < solution.len(),
        in_grid(w, h, solution[i].0 as int, solution[i].1 as int),
    ensures
        solution_marked(g, solution.take(i + 1)) == ({
            let before = solution_marked(g, solution.take(i));
            let x = solution[i].0 as int;
            let y = solution[i].1 as int;
            before.update(
                y,
                before[y].update(x, MazeTile { part_of_solution: true, ..before[y][x] }),
            )
        }),
        is_grid(solution_marked(g, solution.take(i)), w, h),
{
    let before = solution_marked(g, solution.take(i));
    let after = solution_marked(g, solution.take(i + 1));
    let x = solution[i].0 as int;
    let y = solution[i].1 as int;
    let changed = before.update(
        y,
        before[y].update(x, MazeTile { part_of_solution: true, ..before[y][x] }),
    );
    let fewer = solution.take(i);
    let more = solution.take(i + 1);
    assert(more =~= fewer.push(solution[i]));
    assert forall|b: int| 0 <= b < h implies #[trigger] after[b] =~= changed[b] by {
        assert(g[b].len() == w);
        assert forall|a: int| 0 <= a < w implies after[b][a] == changed[b][a] by {
            let c = (a as usize, b as usize);
            if fewer.contains(c) {
                let k = choose|k: int| 0 <= k < fewer.len() && fewer[k] == c;
                assert(more[k] == c);
            }
            if a == x && b == y {
                assert(more[i] == c);
            }
            if more.contains(c) {
                let k = choose|k: int| 0 <= k < more.len() && more[k] == c;
                if k < i {
                    assert(fewer[k] == c);
                }
            }
        }
    }
    assert(after =~= changed);
    assert forall|b: int| 0 <= b < h implies (#[trigger] before[b]).len() == w by {
        assert(g[b].len() == w);
    }
}

/// Marking the solution changes no tile but in its mark, and marks every cell
/// of the solution.
pub proof fn lemma_marked_tiles(g: Grid, w: int, h: int, solution: Seq<(usize, usize)>)
    requires
        is_grid(g, w, h),
    ensures
        is_grid(solution_marked(g, solution), w, h),
        forall|x: int, y: int|
            in_grid(w, h, x, y) ==> #[trigger] at(solution_marked(g, solution), x, y) == (MazeTile {
                part_of_solution: at(g, x, y).part_of_solution || solution.contains(
                    (x as usize, y as usize),
                ),
                ..at(g, x, y)
            }),
        forall|i: int|
            0 <= i < solution.len() && in_grid(
                w,
                h,
                (#[trigger] solution[i]).0 as int,
                solution[i].1 as int,
            ) ==> at(
                solution_marked(g, solution),
                solution[i].0 as int,
                solution[i].1 as int,
            ).part_of_solution,
{
    let m = solution_marked(g, solution);
    assert forall|y: int| 0 <= y < h implies (#[trigger] m[y]).len() == w by {
        assert(g[y].len() == w);
    }
    assert forall|x: int, y: int| in_grid(w, h, x, y) implies #[trigger] at(m, x, y) == (MazeTile {
        part_of_solution: at(g, x, y).part_of_solution || solution.contains(
            (x as usize, y as usize),
        ),
        ..at(g, x, y)
    }) by {
        assert(g[y].len() == w);
    }
    assert forall|i: int|
        0 <= i < solution.len() && in_grid(
            w,
            h,
            (#[trigger] solution[i]).0 as int,
            solution[i].1 as int,
        ) implies at(m, solution[i].0 as int, solution[i].1 as int).part_of_solution by {
        assert(solution.contains(solution[i]));
        assert(g[solution[i].1 as int].len() == w);
    }
}

/// In a row without a start the place of the start stays as it was found.
pub proof fn lemma_no_start_in_row(row: Seq<MazeTile>, y: int, n: int, found: (i64, i64))
    requires
        n <= row.len(),
        forall|x: int| 0 <= x < n ==> (#[trigger] row[x]).tile_type != TileType::Start,
    ensures
        start_in_row(row, y, n, found) == found,
    decreases n,
{
    if n > 0 {
        lemma_no_start_in_row(row, y, n - 1, found);
    }
}

/// In a row whose one start lies at `sx`, the start is found there once the row
/// has been looked at beyond that place.
pub proof fn lemma_start_in_row(row: Seq<MazeTile>, y: int, n: int, sx: int, found: (i64, i64))
    requires
        0 <= sx < n <= row.len(),
        row[sx].tile_type == TileType::Start,
        forall|x: int| 0 <= x < row.len() && x != sx ==> (#[trigger] row[x]).tile_type
            != TileType::Start,
    ensures
        start_in_row(row, y, n, found) == (sprite_position(sx, y).x, sprite_position(sx, y).y),
    decreases n,
{
    if n - 1 > sx {
        lemma_start_in_row(row, y, n - 1, sx, found);
    }
}

/// In a maze whose one start lies on (`sx`, `sy`), the start is found to be
/// drawn at the place of that cell once the rows have been looked at beyond its
/// row, and is not found before.
pub proof fn lemma_start_in_rows(
    g: Grid,
    w: int,
    h: int,
    sx: int,
    sy: int,
    rows: int,
    found: (i64, i64),
)
    requires
        is_grid(g, w, h),
        in_grid(w, h, sx, sy),
        0 <= rows <= h,
        at(g, sx, sy).tile_type == TileType::Start,
        forall|x: int, y: int|
            in_grid(w, h, x, y) && (x != sx || y != sy) ==> (#[trigger] at(g, x, y)).tile_type
                != TileType::Start,
    ensures
        start_in_rows(g, rows, found) == (if rows > sy {
            (sprite_position(sx, sy).x, sprite_position(sx, sy).y)
        } else {
            found
        }),
    decreases rows,
{
    if rows > 0 {
        let y = rows - 1;
        lemma_start_in_rows(g, w, h, sx, sy, rows - 1, found);
        let before = start_in_rows(g, rows - 1, found);
        assert(g[y].len() == w);
        if y == sy {
            assert forall|x: int| 0 <= x < g[y].len() && x != sx implies (#[trigger] g[y][x]).tile_type
                != TileType::Start by {
                assert(at(g, x, y).tile_type != TileType::Start);
            }
            lemma_start_in_row(g[y], y, w, sx, before);
        } else {
            assert forall|x: int| 0 <= x < w implies (#[trigger] g[y][x]).tile_type
                != TileType::Start by {
                assert(at(g, x, y).tile_type != TileType::Start);
            }
            lemma_no_start_in_row(g[y], y, w, before);
        }
    }
}

} // verus!
