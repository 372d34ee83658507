//! What holds of every move of the agent.

use vstd::prelude::*;
use crate::game_state::GameState;
use crate::player::{
    ahead, Collider, CollisionType, destination, Directions, in_world, MOVEMENT, movement,
    MOVEMENT_ACCELERATION, MovementOutcome, Player, PlayerSprite, set_out, shifted,
    SPRITE_SIZE_MAZE, step_x, step_y, ticked, Translation, WORLD_LIMIT,
};

verus! {

/// The ticks of one move cover one tile exactly.
pub proof fn lemma_ticks_cover_a_tile()
    ensures
        MOVEMENT * MOVEMENT_ACCELERATION == SPRITE_SIZE_MAZE,
{
}

/// The agent and its position after `n` ticks.
pub open spec fn after_ticks(player: Player, t: Translation, n: nat) -> (Player, Translation)
    decreases n,
{
    if n == 0 {
        (player, t)
    } else {
        let before = after_ticks(player, t, (n - 1) as nat);
        ticked(before.0, before.1)
    }
}

/// A request to move towards a wall is blocked.
///
/// When the agent is at rest, the game is being played, a wall lies in the way
/// of the requested move and the exit does not, the outcome is `Blocked` and
/// neither the agent nor its position changes.
pub proof fn lemma_wall_blocks(
    player: Player,
    t: Translation,
    sprite: PlayerSprite,
    colliders: Seq<Collider>,
    d: Directions,
)
    requires
        player.moving == Directions::NoDirection,
        d != Directions::NoDirection,
        ahead(CollisionType::CollisionWall, d, colliders, t, sprite.size),
        !ahead(CollisionType::CollisionExit, d, colliders, t, sprite.size),
    ensures
        movement(player, t, sprite, colliders, d, GameState::PlayingGame).outcome == Some(
            MovementOutcome::Blocked,
        ),
        movement(player, t, sprite, colliders, d, GameState::PlayingGame).player == player,
        movement(player, t, sprite, colliders, d, GameState::PlayingGame).translation == t,
{
}

/// A request to move onto the exit reaches the exit.
///
/// When the agent is at rest, the game is being played and the exit lies in the
/// way of the requested move, the outcome is `ExitReached` and neither the agent
/// nor its position changes.
pub proof fn lemma_exit_is_reached(
    player: Player,
    t: Translation,
    sprite: PlayerSprite,
    colliders: Seq<Collider>,
    d: Directions,
)
    requires
        player.moving == Directions::NoDirection,
        d != Directions::NoDirection,
        ahead(CollisionType::CollisionExit, d, colliders, t, sprite.size),
    ensures
        movement(player, t, sprite, colliders, d, GameState::PlayingGame).outcome == Some(
            MovementOutcome::ExitReached,
        ),
        movement(player, t, sprite, colliders, d, GameState::PlayingGame).player == player,
        movement(player, t, sprite, colliders, d, GameState::PlayingGame).translation == t,
{
}

/// A request to move into open space is granted.
///
/// When the agent is at rest, the game is being played and neither a wall nor
/// the exit lies in the way of the requested move, the outcome is `Moved`: the
/// agent moves in the requested direction towards the position one tile away,
/// and its position has not changed yet.
pub proof fn lemma_free_way_moves(
    player: Player,
    t: Translation,
    sprite: PlayerSprite,
    colliders: Seq<Collider>,
    d: Directions,
)
    requires
        player.moving == Directions::NoDirection,
        d != Directions::NoDirection,
        !ahead(CollisionType::CollisionWall, d, colliders, t, sprite.size),
        !ahead(CollisionType::CollisionExit, d, colliders, t, sprite.size),
    ensures
        movement(player, t, sprite, colliders, d, GameState::PlayingGame).outcome == Some(
            MovementOutcome::Moved,
        ),
        movement(player, t, sprite, colliders, d, GameState::PlayingGame).player == set_out(
            player,
            t,
            d,
        ),
        set_out(player, t, d).moving == d,
        set_out(player, t, d).next_position_x == destination(t, d).x,
        set_out(player, t, d).next_position_y == destination(t, d).y,
        movement(player, t, sprite, colliders, d, GameState::PlayingGame).translation == t,
{
}

/// While a move is under way the agent keeps moving, and after `k` ticks its
/// position lies `k` times `MOVEMENT` from where it set out.
pub proof fn lemma_move_under_way(player: Player, t: Translation, d: Directions, k: nat)
    requires
        d != Directions::NoDirection,
        in_world(t),
        k < MOVEMENT_ACCELERATION,
    ensures
        after_ticks(set_out(player, t, d), t, k) == (
            set_out(player, t, d),
            shifted(t, d, k * MOVEMENT),
        ),
    decreases k,
{
    lemma_shifted(t, d, k * MOVEMENT);
    if k > 0 {
        lemma_move_under_way(player, t, d, (k - 1) as nat);
        lemma_shifted(t, d, (k - 1) * MOVEMENT);
        lemma_shifted(t, d, SPRITE_SIZE_MAZE as int);
        lemma_shifted(shifted(t, d, (k - 1) * MOVEMENT), d, MOVEMENT as int);
    }
}

/// The position `distance` away from a position in the world, for a distance of
/// at most one tile: one coordinate has changed by the distance, the other has
/// not changed.
pub proof fn lemma_shifted(t: Translation, d: Directions, distance: int)
    requires
        -WORLD_LIMIT - SPRITE_SIZE_MAZE <= t.x <= WORLD_LIMIT + SPRITE_SIZE_MAZE,
        -WORLD_LIMIT - SPRITE_SIZE_MAZE <= t.y <= WORLD_LIMIT + SPRITE_SIZE_MAZE,
        0 <= distance <= SPRITE_SIZE_MAZE,
    ensures
        d == Directions::West ==> shifted(t, d, distance).x == t.x - distance && shifted(
            t,
            d,
            distance,
        ).y == t.y,
        d == Directions::East ==> shifted(t, d, distance).x == t.x + distance && shifted(
            t,
            d,
            distance,
        ).y == t.y,
        d == Directions::North ==> shifted(t, d, distance).y == t.y + distance && shifted(
            t,
            d,
            distance,
        ).x == t.x,
        d == Directions::South ==> shifted(t, d, distance).y == t.y - distance && shifted(
            t,
            d,
            distance,
        ).x == t.x,
        d == Directions::NoDirection ==> shifted(t, d, distance) == t,
{
}

/// A move arrives.
///
/// After as many ticks as a move takes, an agent that has set out from `t` in
/// the direction `d` is at rest on the position one tile away from `t`, which is
/// both the position it last arrived at and its target.
pub proof fn lemma_move_arrives(player: Player, t: Translation, d: Directions)
    requires
        d != Directions::NoDirection,
        in_world(t),
    ensures
        after_ticks(set_out(player, t, d), t, MOVEMENT_ACCELERATION as nat) == (
            Player {
                moving: Directions::NoDirection,
                position_x: destination(t, d).x,
                position_y: destination(t, d).y,
                ..set_out(player, t, d)
            },
            destination(t, d),
        ),
{
    lemma_move_under_way(player, t, d, (MOVEMENT_ACCELERATION - 1) as nat);
    lemma_shifted(t, d, (MOVEMENT_ACCELERATION - 1) * MOVEMENT);
    lemma_shifted(t, d, SPRITE_SIZE_MAZE as int);
    lemma_shifted(shifted(t, d, (MOVEMENT_ACCELERATION - 1) * MOVEMENT), d, MOVEMENT as int);
    let before = after_ticks(set_out(player, t, d), t, (MOVEMENT_ACCELERATION - 1) as nat);
    assert(after_ticks(set_out(player, t, d), t, MOVEMENT_ACCELERATION as nat) == ticked(
        before.0,
        before.1,
    ));
}

/// A request that finds the agent moving has no effect.
///
/// Whatever direction is requested while a move is under way, the call does what
/// it does without a request, and reports no outcome.
pub proof fn lemma_request_while_moving(
    player: Player,
    t: Translation,
    sprite: PlayerSprite,
    colliders: Seq<Collider>,
    d: Directions,
    state: GameState,
)
    requires
        player.moving != Directions::NoDirection,
    ensures
        movement(player, t, sprite, colliders, d, state) == movement(
            player,
            t,
            sprite,
            colliders,
            Directions::NoDirection,
            state,
        ),
        movement(player, t, sprite, colliders, d, state).outcome is None,
        movement(player, t, sprite, colliders, d, state).sprite == sprite,
{
}

/// The target lies `k` ticks ahead of the position, in the direction of the
/// move.
pub open spec fn ticks_ahead(player: Player, t: Translation, k: int) -> bool {
    &&& player.next_position_x == t.x + step_x(player.moving) * k * MOVEMENT
    &&& player.next_position_y == t.y + step_y(player.moving) * k * MOVEMENT
}

/// The agent and its position fit together: at rest the agent stands on its
/// target; while it moves, the target lies straight ahead along one axis, a
/// whole number of ticks and at most one tile away.
pub open spec fn agent_in_order(player: Player, t: Translation) -> bool {
    if player.moving == Directions::NoDirection {
        &&& t.x == player.next_position_x
        &&& t.y == player.next_position_y
    } else {
        exists|k: int| 1 <= k <= MOVEMENT_ACCELERATION && #[trigger] ticks_ahead(player, t, k)
    }
}

/// A new agent stands in order at the origin.
pub proof fn lemma_new_agent_in_order()
    ensures
        agent_in_order(Player::at_origin(), Translation { x: 0, y: 0 }),
{
}

/// The movement machine keeps the agent and its position in order.
pub proof fn lemma_agent_stays_in_order(
    player: Player,
    t: Translation,
    sprite: PlayerSprite,
    colliders: Seq<Collider>,
    d: Directions,
    state: GameState,
)
    requires
        agent_in_order(player, t),
        in_world(t),
    ensures
        agent_in_order(
            movement(player, t, sprite, colliders, d, state).player,
            movement(player, t, sprite, colliders, d, state).translation,
        ),
{
    let m = movement(player, t, sprite, colliders, d, state);
    if state != GameState::PlayingGame {
    } else if d != Directions::NoDirection && player.moving == Directions::NoDirection {
        if m.outcome == Some(MovementOutcome::Moved) {
            assert(ticks_ahead(m.player, m.translation, MOVEMENT_ACCELERATION as int));
        }
    } else if player.moving != Directions::NoDirection {
        let k = choose|k: int|
            1 <= k <= MOVEMENT_ACCELERATION && #[trigger] ticks_ahead(player, t, k);
        let t2 = shifted(t, player.moving, MOVEMENT as int);
        if t2.x == player.next_position_x && t2.y == player.next_position_y {
        } else {
            assert(step_x(player.moving) * k * MOVEMENT == step_x(player.moving) * (k * MOVEMENT))
                by (nonlinear_arith);
            assert(step_y(player.moving) * k * MOVEMENT == step_y(player.moving) * (k * MOVEMENT))
                by (nonlinear_arith);
            assert(step_x(player.moving) * (k - 1) * MOVEMENT == step_x(player.moving) * ((k - 1)
                * MOVEMENT)) by (nonlinear_arith);
            assert(step_y(player.moving) * (k - 1) * MOVEMENT == step_y(player.moving) * ((k - 1)
                * MOVEMENT)) by (nonlinear_arith);
            lemma_shifted(t, player.moving, MOVEMENT as int);
            assert(m.translation == t2);
            assert(m.player == player);
            assert(k != 1);
            assert(ticks_ahead(player, t2, k - 1));
        }
    }
}

} // verus!
