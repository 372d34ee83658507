//! What a request to move does to an agent that stands in a maze.

use vstd::prelude::*;
use crate::game_state::GameState;
use crate::grid::{at, Grid, in_grid, is_grid};
use crate::layout::MAX_MAZE_SIZE;
use crate::maze_generator::placed_on_start;
use crate::maze_tile::TileType;
use crate::movement_laws::agent_in_order;
use crate::painting::{
    collider_of, colliders_of, collision_of, game_tile, GameTile, painted, painted_row,
    sprite_position,
};
use crate::player::{
    ahead, Collider, CollisionTile, CollisionType, destination, Directions, hits_collider, movement,
    MovementOutcome, Player, PlayerSprite, set_out, SPRITE_SIZE_MAZE, SpriteSize, step_x, step_y,
};

verus! {

/// The size of a box that covers one tile.
pub open spec fn tile_box() -> SpriteSize {
    SpriteSize { x: SPRITE_SIZE_MAZE, y: SPRITE_SIZE_MAZE }
}

/// The colliders of a maze of `h` rows: those that its tiles make when they are
/// put on the screen.
pub open spec fn colliders_of_maze(g: Grid, h: int) -> Seq<Collider> {
    colliders_of(painted(g, h))
}

/// The tiles on the screen are the tiles of the cells.
pub proof fn lemma_painted_tiles(g: Grid, w: int, h: int, rows: int, tile: GameTile)
    requires
        is_grid(g, w, h),
        0 <= rows <= h,
    ensures
        painted(g, rows).contains(tile) <==> exists|x: int, y: int|
            0 <= x < w && 0 <= y < rows && tile == #[trigger] game_tile(g, x, y),
    decreases rows,
{
    if rows > 0 {
        let before = painted(g, rows - 1);
        let row = painted_row(g, rows - 1);
        lemma_painted_tiles(g, w, h, rows - 1, tile);
        assert(g[rows - 1].len() == w);
        if painted(g, rows).contains(tile) {
            let i = choose|i: int| 0 <= i < (before + row).len() && (before + row)[i] == tile;
            if i < before.len() {
                assert(before[i] == tile);
                assert(before.contains(tile));
            } else {
                assert(row[i - before.len()] == tile);
                assert(tile == game_tile(g, i - before.len(), rows - 1));
            }
        }
        if exists|x: int, y: int|
            0 <= x < w && 0 <= y < rows && tile == #[trigger] game_tile(g, x, y) {
            let (x, y) = choose|x: int, y: int|
                0 <= x < w && 0 <= y < rows && tile == #[trigger] game_tile(g, x, y);
            if y < rows - 1 {
                assert(before.contains(tile));
                let i = choose|i: int| 0 <= i < before.len() && before[i] == tile;
                assert((before + row)[i] == tile);
            } else {
                assert(row[x] == tile);
                assert((before + row)[before.len() + x] == tile);
            }
        }
    }
}

/// The colliders are those of the tiles that carry a mark.
pub proof fn lemma_colliders_of_tiles(tiles: Seq<GameTile>, c: Collider)
    ensures
        colliders_of(tiles).contains(c) <==> exists|i: int|
            0 <= i < tiles.len() && (#[trigger] tiles[i]).collision is Some && c == collider_of(
                tiles[i],
            ),
    decreases tiles.len(),
{
    if tiles.len() > 0 {
        let fewer = tiles.drop_last();
        let rest = colliders_of(fewer);
        let last = tiles.last();
        lemma_colliders_of_tiles(fewer, c);
        if colliders_of(tiles).contains(c) {
            let all = colliders_of(tiles);
            let k = choose|k: int| 0 <= k < all.len() && all[k] == c;
            if last.collision is Some && k == rest.len() {
                assert(tiles[tiles.len() - 1] == last);
            } else {
                assert(rest[k] == c);
                assert(rest.contains(c));
                let i = choose|i: int|
                    0 <= i < fewer.len() && (#[trigger] fewer[i]).collision is Some && c
                        == collider_of(fewer[i]);
                assert(tiles[i] == fewer[i]);
            }
        }
        if exists|i: int|
            0 <= i < tiles.len() && (#[trigger] tiles[i]).collision is Some && c == collider_of(
                tiles[i],
            ) {
            let i = choose|i: int|
                0 <= i < tiles.len() && (#[trigger] tiles[i]).collision is Some && c
                    == collider_of(tiles[i]);
            if i < tiles.len() - 1 {
                assert(fewer[i] == tiles[i]);
                assert(rest.contains(c));
                let k = choose|k: int| 0 <= k < rest.len() && rest[k] == c;
                if last.collision is Some {
                    assert(rest.push(collider_of(last))[k] == c);
                }
            } else {
                assert(rest.push(collider_of(last))[rest.len() as int] == c);
            }
        }
    }
}

/// A move from the tile of one cell runs into the tile of another cell exactly
/// when that cell is the next one in the direction of the move.
pub proof fn lemma_tile_in_the_way(x: int, y: int, a: int, b: int, d: Directions)
    requires
        0 <= x <= MAX_MAZE_SIZE,
        0 <= y <= MAX_MAZE_SIZE,
        0 <= a <= MAX_MAZE_SIZE,
        0 <= b <= MAX_MAZE_SIZE,
    ensures
        hits_collider(
            d,
            Collider {
                translation: sprite_position(a, b),
                size: tile_box(),
                tile: CollisionTile { collision_type: CollisionType::CollisionWall },
            },
            sprite_position(x, y),
            tile_box(),
        ) <==> d != Directions::NoDirection && a == x + step_x(d) && b == y + step_y(d),
        d != Directions::NoDirection ==> destination(sprite_position(x, y), d) == sprite_position(
            x + step_x(d),
            y + step_y(d),
        ),
{
}

/// Of the tiles of a maze, only the tile of the next cell lies in the way of a
/// move from the tile of a cell: a collider of a kind is ahead exactly when the
/// next cell in the direction of the move carries the mark of that kind.
pub proof fn lemma_next_cell_is_ahead(
    g: Grid,
    w: int,
    h: int,
    x: int,
    y: int,
    d: Directions,
    kind: CollisionType,
)
    requires
        is_grid(g, w, h),
        w <= MAX_MAZE_SIZE,
        h <= MAX_MAZE_SIZE,
        in_grid(w, h, x, y),
        d != Directions::NoDirection,
        in_grid(w, h, x + step_x(d), y + step_y(d)),
    ensures
        ahead(kind, d, colliders_of_maze(g, h), sprite_position(x, y), tile_box()) <==> collision_of(
            at(g, x + step_x(d), y + step_y(d)).tile_type,
        ) == Some(CollisionTile { collision_type: kind }),
{
    let colliders = colliders_of_maze(g, h);
    let tiles = painted(g, h);
    let t = sprite_position(x, y);
    let nx = x + step_x(d);
    let ny = y + step_y(d);
    if ahead(kind, d, colliders, t, tile_box()) {
        let i = choose|i: int|
            0 <= i < colliders.len() && (#[trigger] colliders[i]).tile.collision_type == kind
                && hits_collider(d, colliders[i], t, tile_box());
        let c = colliders[i];
        assert(colliders.contains(c));
        lemma_colliders_of_tiles(tiles, c);
        let k = choose|k: int|
            0 <= k < tiles.len() && (#[trigger] tiles[k]).collision is Some && c == collider_of(
                tiles[k],
            );
        assert(tiles.contains(tiles[k]));
        lemma_painted_tiles(g, w, h, h, tiles[k]);
        let (a, b) = choose|a: int, b: int|
            0 <= a < w && 0 <= b < h && tiles[k] == #[trigger] game_tile(g, a, b);
        lemma_tile_in_the_way(x, y, a, b, d);
    }
    if collision_of(at(g, nx, ny).tile_type) == Some(CollisionTile { collision_type: kind }) {
        let tile = game_tile(g, nx, ny);
        lemma_painted_tiles(g, w, h, h, tile);
        assert(tiles.contains(tile));
        let k = choose|k: int| 0 <= k < tiles.len() && tiles[k] == tile;
        let c = collider_of(tile);
        lemma_colliders_of_tiles(tiles, c);
        assert(colliders.contains(c));
        let i = choose|i: int| 0 <= i < colliders.len() && colliders[i] == c;
        lemma_tile_in_the_way(x, y, nx, ny, d);
        assert(hits_collider(d, colliders[i], t, tile_box()));
    }
}

/// What a request to move does in a maze.
///
/// An agent at rest on the tile of a cell, as large as a tile, asks to move
/// while the game is played. If the next cell in that direction is a wall or
/// the border, the request is blocked; if it is the exit, the exit is reached;
/// in both cases the agent stays as it is. If it is open or the start, the agent
/// sets out for the tile of that cell.
pub proof fn lemma_request_in_a_maze(
    g: Grid,
    w: int,
    h: int,
    x: int,
    y: int,
    d: Directions,
    player: Player,
    sprite: PlayerSprite,
)
    requires
        is_grid(g, w, h),
        w <= MAX_MAZE_SIZE,
        h <= MAX_MAZE_SIZE,
        in_grid(w, h, x, y),
        d != Directions::NoDirection,
        in_grid(w, h, x + step_x(d), y + step_y(d)),
        player.moving == Directions::NoDirection,
        sprite.size == tile_box(),
    ensures
        ({
            let next = at(g, x + step_x(d), y + step_y(d)).tile_type;
            let m = movement(
                player,
                sprite_position(x, y),
                sprite,
                colliders_of_maze(g, h),
                d,
                GameState::PlayingGame,
            );
            &&& m.translation == sprite_position(x, y)
            &&& next == TileType::Wall || next == TileType::Border ==> m.outcome == Some(
                MovementOutcome::Blocked,
            ) && m.player == player
            &&& next == TileType::Exit ==> m.outcome == Some(MovementOutcome::ExitReached)
                && m.player == player
            &&& next == TileType::Open || next == TileType::Start ==> {
                &&& m.outcome == Some(MovementOutcome::Moved)
                &&& m.player == set_out(player, sprite_position(x, y), d)
                &&& m.player.moving == d
                &&& m.player.next_position_x == sprite_position(x + step_x(d), y + step_y(d)).x
                &&& m.player.next_position_y == sprite_position(x + step_x(d), y + step_y(d)).y
            }
        }),
{
    lemma_next_cell_is_ahead(g, w, h, x, y, d, CollisionType::CollisionWall);
    lemma_next_cell_is_ahead(g, w, h, x, y, d, CollisionType::CollisionExit);
    lemma_tile_in_the_way(x, y, x + step_x(d), y + step_y(d), d);
}

/// The agent of a new maze stands in order on the place where the start is
/// drawn.
pub proof fn lemma_placed_agent_in_order(player: Player, start: (usize, usize))
    ensures
        agent_in_order(
            placed_on_start(player, start),
            sprite_position(start.0 as int, start.1 as int),
        ),
{
}

} // verus!
