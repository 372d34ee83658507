//! The agent and the machine that moves it from tile to tile.

use vstd::prelude::*;
use crate::game_state::GameState;

verus! {

/// The side length of a tile, and with it the length of one move.
pub const SPRITE_SIZE_MAZE: i64 = 100;

/// The number of ticks that a move from one tile to the next takes.
pub const MOVEMENT_ACCELERATION: i64 = 20;

/// The distance covered in one tick of a move: the tile's side length divided
/// by the number of ticks that a move takes.
pub const MOVEMENT: i64 = 5;

/// The largest coordinate, in either direction, that a position may have when
/// it is handed to the movement functions.
pub const WORLD_LIMIT: i64 = 1_000_000_000_000;

/// A direction of movement, or none.
#[derive(Clone, Debug, Eq, PartialEq, Copy, Structural)]
pub enum Directions {
    North,
    South,
    East,
    West,
    /// No direction: the agent is at rest, or nothing was requested.
    NoDirection,
}

/// What a collider stands for.
#[derive(Clone, Copy, Debug, Eq, PartialEq, Structural)]
pub enum CollisionType {
    CollisionWall,
    CollisionExit,
    CollisionStart,
}

/// The mark of a tile that takes part in collisions.
#[derive(Clone, Copy, Debug, PartialEq, Eq, Structural)]
pub struct CollisionTile {
    pub collision_type: CollisionType,
}

/// The side of the agent on which it has run into something.
#[derive(Clone, Copy, Debug, PartialEq, Eq, Structural)]
pub enum Collision {
    Left,
    Right,
    Top,
    Bottom,
}

/// The centre of a box in the plane.
#[derive(Clone, Copy, Debug, PartialEq, Eq, Structural)]
pub struct Translation {
    pub x: i64,
    pub y: i64,
}

/// The width and the height of a box.
#[derive(Clone, Copy, Debug, PartialEq, Eq, Structural)]
pub struct SpriteSize {
    pub x: i64,
    pub y: i64,
}

/// What the movement reads and sets of the agent's picture: its size, and
/// whether it is mirrored to look east.
#[derive(Clone, Copy, Debug, PartialEq, Eq, Structural)]
pub struct PlayerSprite {
    pub size: SpriteSize,
    pub flip_x: bool,
}

/// A tile that the agent can run into: its box and what it stands for.
#[derive(Clone, Copy, Debug, PartialEq, Eq, Structural)]
pub struct Collider {
    pub translation: Translation,
    pub size: SpriteSize,
    pub tile: CollisionTile,
}

/// What a probe of the destination found: contact with a wall on each of the
/// four sides, and contact with the exit.
#[derive(Clone, Copy, Debug, PartialEq, Eq, Structural)]
pub struct CollisionWith {
    pub left: bool,
    pub right: bool,
    pub up: bool,
    pub down: bool,
    pub exit: bool,
}

impl CollisionWith {
    /// No contact at all.
    pub open spec fn clear() -> CollisionWith {
        CollisionWith { left: false, right: false, up: false, down: false, exit: false }
    }

    /// Contact with a wall on some side.
    pub open spec fn wall(self) -> bool {
        self.left || self.right || self.up || self.down
    }

    /// A probe that has found nothing yet.
    pub fn new() -> (probe: Self)
        ensures
            probe == Self::clear(),
    {
        Self { left: false, right: false, up: false, down: false, exit: false }
    }
}

/// A request to move in a direction.
#[derive(Clone, Copy, Debug, PartialEq, Eq, Structural)]
pub struct ChangeDirectionEvent(pub Directions);

/// What became of a request to move.
#[derive(Clone, Copy, Debug, PartialEq, Eq, Structural)]
pub enum MovementOutcome {
    /// The way was free: the agent has set out for the next tile.
    Moved,
    /// A wall stands in the way: the agent stays where it is.
    Blocked,
    /// The exit lies in the way: the agent stays, and a new maze is due.
    ExitReached,
}

/// The agent: the position it last arrived at, the direction it moves in, the
/// direction it faces, and the position it moves to.
#[derive(Clone, Copy, Debug, PartialEq, Eq, Structural)]
pub struct Player {
    pub position_x: i64,
    pub position_y: i64,
    pub moving: Directions,
    pub direction: Directions,
    pub next_position_x: i64,
    pub next_position_y: i64,
}

impl Player {
    /// The agent at rest at the origin, facing north.
    pub open spec fn at_origin() -> Player {
        Player {
            position_x: 0,
            position_y: 0,
            moving: Directions::NoDirection,
            direction: Directions::North,
            next_position_x: 0,
            next_position_y: 0,
        }
    }

    /// An agent at rest at the origin, facing north.
    pub fn new() -> (player: Self)
        ensures
            player == Self::at_origin(),
    {
        Self {
            position_x: 0,
            position_y: 0,
            moving: Directions::NoDirection,
            direction: Directions::North,
            next_position_x: 0,
            next_position_y: 0,
        }
    }
}

/// How far one step in the direction leads along the x axis: 1, 0 or -1.
pub open spec fn step_x(d: Directions) -> int {
    match d {
        Directions::West => -1,
        Directions::East => 1,
        _ => 0,
    }
}

/// How far one step in the direction leads along the y axis: 1, 0 or -1.
pub open spec fn step_y(d: Directions) -> int {
    match d {
        Directions::North => 1,
        Directions::South => -1,
        _ => 0,
    }
}

/// The position lies within `WORLD_LIMIT` of the origin along both axes.
pub open spec fn in_world(t: Translation) -> bool {
    -WORLD_LIMIT <= t.x <= WORLD_LIMIT && -WORLD_LIMIT <= t.y <= WORLD_LIMIT
}

/// Neither side of the box is negative or longer than `WORLD_LIMIT`.
pub open spec fn sized(s: SpriteSize) -> bool {
    0 <= s.x <= WORLD_LIMIT && 0 <= s.y <= WORLD_LIMIT
}

/// The position `distance` away from `t` in the direction `d`.
pub open spec fn shifted(t: Translation, d: Directions, distance: int) -> Translation {
    Translation { x: (t.x + step_x(d) * distance) as i64, y: (t.y + step_y(d) * distance) as i64 }
}

/// The position one tile away from `t` in the direction `d`: where a move from
/// `t` leads.
pub open spec fn destination(t: Translation, d: Directions) -> Translation {
    shifted(t, d, SPRITE_SIZE_MAZE as int)
}

/// The two boxes, each given by its centre and its size, have inner points in
/// common: along both axes the centres lie nearer to each other than half the
/// sum of the sides.
pub open spec fn overlaps(
    a_pos: Translation,
    a_size: SpriteSize,
    b_pos: Translation,
    b_size: SpriteSize,
) -> bool {
    &&& 2 * (a_pos.x - b_pos.x) < a_size.x + b_size.x
    &&& 2 * (b_pos.x - a_pos.x) < a_size.x + b_size.x
    &&& 2 * (a_pos.y - b_pos.y) < a_size.y + b_size.y
    &&& 2 * (b_pos.y - a_pos.y) < a_size.y + b_size.y
}

/// The side with which the agent leads when it moves in the direction.
pub open spec fn leading_side(d: Directions) -> Collision {
    match d {
        Directions::West => Collision::Left,
        Directions::East => Collision::Right,
        Directions::South => Collision::Bottom,
        _ => Collision::Top,
    }
}

/// A move in the direction `d` would run into the collider: the agent's box,
/// placed on the destination of the move, overlaps the collider's box.
pub open spec fn hits(
    d: Directions,
    collider_translation: Translation,
    collider_size: SpriteSize,
    player_translation: Translation,
    player_size: SpriteSize,
) -> bool {
    d != Directions::NoDirection && overlaps(
        collider_translation,
        collider_size,
        destination(player_translation, d),
        player_size,
    )
}

/// Whether the picture is mirrored after the agent has turned to the direction:
/// it looks east when mirrored, west when not, and keeps its look otherwise.
pub open spec fn facing(d: Directions, flip_x: bool) -> bool {
    match d {
        Directions::West => false,
        Directions::East => true,
        _ => flip_x,
    }
}

/// Looks ahead: tells whether the agent, moved one tile in the requested
/// direction, would overlap the collider, and if so on which side the agent
/// leads. Turns the picture to the requested direction.
pub fn check_for_collision(
    new_direction: &Directions,
    collider_translation: &Translation,
    collider_size: &SpriteSize,
    player_translation: &Translation,
    player_sprite: &mut PlayerSprite,
) -> (collision: Option<Collision>)
    requires
        in_world(*collider_translation),
        sized(*collider_size),
        in_world(*player_translation),
        sized(old(player_sprite).size),
    ensures
        final(player_sprite).size == old(player_sprite).size,
        final(player_sprite).flip_x == facing(*new_direction, old(player_sprite).flip_x),
        collision == (if hits(
            *new_direction,
            *collider_translation,
            *collider_size,
            *player_translation,
            old(player_sprite).size,
        ) {
            Some(leading_side(*new_direction))
        } else {
            None
        }),
{
    let mut next_player_translation = *player_translation;
    let side;
    if *new_direction == Directions::West {
        next_player_translation.x -= SPRITE_SIZE_MAZE;
        player_sprite.flip_x = false;
        side = Collision::Left;
    } else if *new_direction == Directions::East {
        next_player_translation.x += SPRITE_SIZE_MAZE;
        player_sprite.flip_x = true;
        side = Collision::Right;
    } else if *new_direction == Directions::North {
        next_player_translation.y += SPRITE_SIZE_MAZE;
        side = Collision::Top;
    } else if *new_direction == Directions::South {
        next_player_translation.y -= SPRITE_SIZE_MAZE;
        side = Collision::Bottom;
    } else {
        return None;
    }
    let reach_x = collider_size.x + player_sprite.size.x;
    let reach_y = collider_size.y + player_sprite.size.y;
    if 2 * (collider_translation.x - next_player_translation.x) < reach_x && 2 * (
    next_player_translation.x - collider_translation.x) < reach_x && 2 * (collider_translation.y
        - next_player_translation.y) < reach_y && 2 * (next_player_translation.y
        - collider_translation.y) < reach_y {
        Some(side)
    } else {
        None
    }
}

/// The agent after it has set out from `t` in the direction `d`: it moves in
/// that direction towards the position one tile away. With no direction it
/// stays as it is.
pub open spec fn set_out(player: Player, t: Translation, d: Directions) -> Player {
    if d == Directions::NoDirection {
        player
    } else {
        Player {
            next_position_x: destination(t, d).x,
            next_position_y: destination(t, d).y,
            moving: d,
            ..player
        }
    }
}

/// Commits a move: sets the agent's target to the position one tile away in the
/// requested direction and lets it move there.
pub fn set_next_player_position(
    new_direction: &Directions,
    player: &mut Player,
    player_translation: &Translation,
)
    requires
        in_world(*player_translation),
    ensures
        *final(player) == set_out(*old(player), *player_translation, *new_direction),
{
    if *new_direction == Directions::West {
        player.next_position_x = player_translation.x - SPRITE_SIZE_MAZE;
        player.next_position_y = player_translation.y;
        player.moving = Directions::West;
    } else if *new_direction == Directions::East {
        player.next_position_x = player_translation.x + SPRITE_SIZE_MAZE;
        player.next_position_y = player_translation.y;
        player.moving = Directions::East;
    } else if *new_direction == Directions::North {
        player.next_position_y = player_translation.y + SPRITE_SIZE_MAZE;
        player.next_position_x = player_translation.x;
        player.moving = Directions::North;
    } else if *new_direction == Directions::South {
        player.next_position_y = player_translation.y - SPRITE_SIZE_MAZE;
        player.next_position_x = player_translation.x;
        player.moving = Directions::South;
    }
}

/// The agent and its position after one tick: the position has advanced by
/// `MOVEMENT` in the direction of the move, and where it has reached the target
/// the agent is at rest there.
pub open spec fn ticked(player: Player, t: Translation) -> (Player, Translation) {
    let t2 = shifted(t, player.moving, MOVEMENT as int);
    if t2.x == player.next_position_x && t2.y == player.next_position_y {
        (
            Player {
                moving: Directions::NoDirection,
                position_x: player.next_position_x,
                position_y: player.next_position_y,
                ..player
            },
            t2,
        )
    } else {
        (player, t2)
    }
}

/// Advances the agent by one tick of its move, and lets it come to rest when it
/// has reached its target.
pub fn handle_movement_by_collision(player: &mut Player, player_translation: &mut Translation)
    requires
        in_world(*old(player_translation)),
    ensures
        (*final(player), *final(player_translation)) == ticked(
            *old(player),
            *old(player_translation),
        ),
{
    if player.moving == Directions::West {
        player_translation.x -= MOVEMENT;
    } else if player.moving == Directions::East {
        player_translation.x += MOVEMENT;
    } else if player.moving == Directions::North {
        player_translation.y += MOVEMENT;
    } else if player.moving == Directions::South {
        player_translation.y -= MOVEMENT;
    }
    if player_translation.x == player.next_position_x && player_translation.y
        == player.next_position_y {
        player.moving = Directions::NoDirection;
        player.position_x = player.next_position_x;
        player.position_y = player.next_position_y;
    }
}

/// A move in the direction `d` would run into the collider.
pub open spec fn hits_collider(
    d: Directions,
    collider: Collider,
    t: Translation,
    size: SpriteSize,
) -> bool {
    hits(d, collider.translation, collider.size, t, size)
}

/// A move in the direction `d` would run into a collider of the given kind.
pub open spec fn ahead(
    kind: CollisionType,
    d: Directions,
    colliders: Seq<Collider>,
    t: Translation,
    size: SpriteSize,
) -> bool {
    exists|i: int|
        0 <= i < colliders.len() && (#[trigger] colliders[i]).tile.collision_type == kind
            && hits_collider(d, colliders[i], t, size)
}

/// What a probe of the destination finds: contact with a wall on the side with
/// which the agent leads if any wall lies in the way, and contact with the exit
/// if the exit lies in the way.
pub open spec fn probed(
    d: Directions,
    colliders: Seq<Collider>,
    t: Translation,
    size: SpriteSize,
) -> CollisionWith {
    let wall = ahead(CollisionType::CollisionWall, d, colliders, t, size);
    CollisionWith {
        left: wall && d == Directions::West,
        right: wall && d == Directions::East,
        up: wall && d == Directions::North,
        down: wall && d == Directions::South,
        exit: ahead(CollisionType::CollisionExit, d, colliders, t, size),
    }
}

/// Every collider lies in the world and has a size in order.
pub open spec fn colliders_in_world(colliders: Seq<Collider>) -> bool {
    forall|i: int|
        0 <= i < colliders.len() ==> in_world((#[trigger] colliders[i]).translation) && sized(
            colliders[i].size,
        )
}

/// The picture after a probe: turned to the requested direction if there was a
/// collider to look at.
pub open spec fn turned(
    sprite: PlayerSprite,
    d: Directions,
    colliders: Seq<Collider>,
) -> PlayerSprite {
    PlayerSprite {
        flip_x: if colliders.len() > 0 {
            facing(d, sprite.flip_x)
        } else {
            sprite.flip_x
        },
        ..sprite
    }
}

/// Probes the destination of a move in the requested direction against every
/// collider, and gathers the contacts.
pub fn probe_collisions(
    new_direction: &Directions,
    colliders: &Vec<Collider>,
    player_translation: &Translation,
    player_sprite: &mut PlayerSprite,
) -> (collision_with: CollisionWith)
    requires
        in_world(*player_translation),
        sized(old(player_sprite).size),
        colliders_in_world(colliders@),
    ensures
        collision_with == probed(
            *new_direction,
            colliders@,
            *player_translation,
            old(player_sprite).size,
        ),
        *final(player_sprite) == turned(*old(player_sprite), *new_direction, colliders@),
{
    let mut collision_with = CollisionWith::new();
    let ghost size = player_sprite.size;
    let ghost sprite0 = *player_sprite;
    let mut i: usize = 0;
    while i < colliders.len()
        invariant
            i <= colliders@.len(),
            in_world(*player_translation),
            colliders_in_world(colliders@),
            player_sprite.size == size,
            size == sprite0.size,
            sized(size),
            *player_sprite == turned(sprite0, *new_direction, colliders@.take(i as int)),
            collision_with == probed(
                *new_direction,
                colliders@.take(i as int),
                *player_translation,
                size,
            ),
        decreases colliders@.len() - i,
    {
        let collider = colliders[i];
        let ghost before = colliders@.take(i as int);
        let ghost after = colliders@.take(i as int + 1);
        let collision = check_for_collision(
            new_direction,
            &collider.translation,
            &collider.size,
            player_translation,
            player_sprite,
        );
        if let Some(collision_side) = collision {
            if collider.tile.collision_type == CollisionType::CollisionWall {
                match collision_side {
                    Collision::Left => collision_with.left = true,
                    Collision::Right => collision_with.right = true,
                    Collision::Top => collision_with.up = true,
                    Collision::Bottom => collision_with.down = true,
                }
            } else if collider.tile.collision_type == CollisionType::CollisionExit {
                collision_with.exit = true;
            }
        }
        proof {
            assert(after =~= before.push(collider));
            lemma_ahead_one_more(
                CollisionType::CollisionWall,
                *new_direction,
                before,
                collider,
                *player_translation,
                size,
            );
            lemma_ahead_one_more(
                CollisionType::CollisionExit,
                *new_direction,
                before,
                collider,
                *player_translation,
                size,
            );
        }
        i += 1;
    }
    proof {
        assert(colliders@.take(i as int) =~= colliders@);
    }
    collision_with
}

/// With one more collider, something of a kind lies ahead if it did before or
/// if the new collider is of that kind and lies in the way.
pub proof fn lemma_ahead_one_more(
    kind: CollisionType,
    d: Directions,
    colliders: Seq<Collider>,
    collider: Collider,
    t: Translation,
    size: SpriteSize,
)
    ensures
        ahead(kind, d, colliders.push(collider), t, size) == (ahead(kind, d, colliders, t, size) || (
        collider.tile.collision_type == kind && hits_collider(d, collider, t, size))),
{
    let more = colliders.push(collider);
    if ahead(kind, d, colliders, t, size) {
        let i = choose|i: int|
            0 <= i < colliders.len() && (#[trigger] colliders[i]).tile.collision_type == kind
                && hits_collider(d, colliders[i], t, size);
        assert(more[i] == colliders[i]);
    }
    if collider.tile.collision_type == kind && hits_collider(d, collider, t, size) {
        assert(more[colliders.len() as int] == collider);
    }
    if ahead(kind, d, more, t, size) {
        let i = choose|i: int|
            0 <= i < more.len() && (#[trigger] more[i]).tile.collision_type == kind
                && hits_collider(d, more[i], t, size);
        if i < colliders.len() {
            assert(more[i] == colliders[i]);
        }
    }
}

/// What becomes of a request to move, given what the probe found: the agent
/// moves where nothing lies in the way, reaches the exit where the exit does,
/// and is blocked where only a wall does.
pub open spec fn outcome_of(c: CollisionWith) -> MovementOutcome {
    if !c.wall() && !c.exit {
        MovementOutcome::Moved
    } else if c.exit {
        MovementOutcome::ExitReached
    } else {
        MovementOutcome::Blocked
    }
}

/// The state of the agent that one call of the movement machine reads and
/// changes, and the outcome that the call reports.
pub struct Movement {
    pub player: Player,
    pub translation: Translation,
    pub sprite: PlayerSprite,
    pub outcome: Option<MovementOutcome>,
}

/// What one call of the movement machine does.
///
/// Outside play nothing happens. A request that finds the agent at rest is
/// processed: the destination is probed, and the agent sets out if nothing lies
/// in the way. Otherwise an agent that is moving advances by one tick, whatever
/// was requested, and an agent at rest stays as it is.
pub open spec fn movement(
    player: Player,
    t: Translation,
    sprite: PlayerSprite,
    colliders: Seq<Collider>,
    d: Directions,
    state: GameState,
) -> Movement {
    if state != GameState::PlayingGame {
        Movement { player, translation: t, sprite, outcome: None }
    } else if d != Directions::NoDirection && player.moving == Directions::NoDirection {
        let outcome = outcome_of(probed(d, colliders, t, sprite.size));
        Movement {
            player: if outcome == MovementOutcome::Moved {
                set_out(player, t, d)
            } else {
                player
            },
            translation: t,
            sprite: turned(sprite, d, colliders),
            outcome: Some(outcome),
        }
    } else if player.moving != Directions::NoDirection {
        Movement {
            player: ticked(player, t).0,
            translation: ticked(player, t).1,
            sprite,
            outcome: None,
        }
    } else {
        Movement { player, translation: t, sprite, outcome: None }
    }
}

/// Runs the movement machine once: processes a request to move if the agent is
/// at rest, and advances a move that is under way otherwise. Reports the outcome
/// of a request that was processed.
pub fn move_to_next_maze_tile(
    player: &mut Player,
    player_translation: &mut Translation,
    player_sprite: &mut PlayerSprite,
    colliders: &Vec<Collider>,
    new_direction: &Directions,
    game_state: &GameState,
) -> (outcome: Option<MovementOutcome>)
    requires
        in_world(*old(player_translation)),
        sized(old(player_sprite).size),
        colliders_in_world(colliders@),
    ensures
        (Movement {
            player: *final(player),
            translation: *final(player_translation),
            sprite: *final(player_sprite),
            outcome,
        }) == movement(
            *old(player),
            *old(player_translation),
            *old(player_sprite),
            colliders@,
            *new_direction,
            *game_state,
        ),
{
    if *game_state == GameState::PlayingGame {
        if *new_direction != Directions::NoDirection && player.moving == Directions::NoDirection {
            let collision_with = probe_collisions(
                new_direction,
                colliders,
                player_translation,
                player_sprite,
            );
            if !collision_with.left && !collision_with.right && !collision_with.up
                && !collision_with.down && !collision_with.exit {
                set_next_player_position(new_direction, player, player_translation);
                Some(MovementOutcome::Moved)
            } else if collision_with.exit {
                Some(MovementOutcome::ExitReached)
            } else {
                Some(MovementOutcome::Blocked)
            }
        } else {
            if player.moving != Directions::NoDirection {
                handle_movement_by_collision(player, player_translation);
            }
            None
        }
    } else {
        None
    }
}

/// The direction that the requests of one tick ask for: that of the last
/// request, or none where there is no request.
pub open spec fn requested(events: Seq<ChangeDirectionEvent>) -> Directions {
    if events.len() == 0 {
        Directions::NoDirection
    } else {
        events.last().0
    }
}

/// Takes the requests of one tick and runs the movement machine with the
/// direction that the last of them asks for.
pub fn check_direction_change(
    player: &mut Player,
    player_translation: &mut Translation,
    player_sprite: &mut PlayerSprite,
    colliders: &Vec<Collider>,
    change_direction: &Vec<ChangeDirectionEvent>,
    game_state: &GameState,
) -> (outcome: Option<MovementOutcome>)
    requires
        in_world(*old(player_translation)),
        sized(old(player_sprite).size),
        colliders_in_world(colliders@),
    ensures
        (Movement {
            player: *final(player),
            translation: *final(player_translation),
            sprite: *final(player_sprite),
            outcome,
        }) == movement(
            *old(player),
            *old(player_translation),
            *old(player_sprite),
            colliders@,
            requested(change_direction@),
            *game_state,
        ),
{
    let mut new_direction = Directions::NoDirection;
    let mut i: usize = 0;
    while i < change_direction.len()
        invariant
            i <= change_direction@.len(),
            new_direction == requested(change_direction@.take(i as int)),
        decreases change_direction@.len() - i,
    {
        new_direction = change_direction[i].0;
        i += 1;
    }
    proof {
        assert(change_direction@.take(i as int) =~= change_direction@);
    }
    move_to_next_maze_tile(
        player,
        player_translation,
        player_sprite,
        colliders,
        &new_direction,
        game_state,
    )
}

} // verus!
