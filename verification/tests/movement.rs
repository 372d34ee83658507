use amazingly_lost::game_state::GameState;
use amazingly_lost::player::{
    check_direction_change, check_for_collision, handle_movement_by_collision,
    move_to_next_maze_tile, probe_collisions, set_next_player_position, ChangeDirectionEvent,
    Collider, Collision, CollisionTile, CollisionType, CollisionWith, Directions,
    MovementOutcome, Player, PlayerSprite, SpriteSize, Translation, MOVEMENT,
    MOVEMENT_ACCELERATION, SPRITE_SIZE_MAZE, WORLD_LIMIT,
};

fn tile_size() -> SpriteSize {
    SpriteSize { x: 100, y: 100 }
}

fn sprite() -> PlayerSprite {
    PlayerSprite { size: tile_size(), flip_x: false }
}

fn collider(x: i64, y: i64, kind: CollisionType) -> Collider {
    Collider {
        translation: Translation { x, y },
        size: tile_size(),
        tile: CollisionTile { collision_type: kind },
    }
}

fn wall(x: i64, y: i64) -> Collider {
    collider(x, y, CollisionType::CollisionWall)
}

fn at_rest(x: i64, y: i64) -> (Player, Translation) {
    let mut player = Player::new();
    player.position_x = x;
    player.position_y = y;
    player.next_position_x = x;
    player.next_position_y = y;
    (player, Translation { x, y })
}

#[test]
fn the_constants_of_movement() {
    assert_eq!(SPRITE_SIZE_MAZE, 100);
    assert_eq!(MOVEMENT_ACCELERATION, 20);
    assert_eq!(MOVEMENT, 5);
    assert_eq!(MOVEMENT * MOVEMENT_ACCELERATION, SPRITE_SIZE_MAZE);
    assert_eq!(WORLD_LIMIT, 1_000_000_000_000);
}

#[test]
fn a_new_player_rests_at_the_origin() {
    let player = Player::new();
    assert_eq!((player.position_x, player.position_y), (0, 0));
    assert_eq!((player.next_position_x, player.next_position_y), (0, 0));
    assert_eq!(player.moving, Directions::NoDirection);
    assert_eq!(player.direction, Directions::North);
}

#[test]
fn a_new_probe_has_no_contact() {
    let probe = CollisionWith::new();
    assert_eq!(
        probe,
        CollisionWith { left: false, right: false, up: false, down: false, exit: false }
    );
}

#[test]
fn the_look_ahead_checks_the_destination() {
    let player = Translation { x: 300, y: 300 };
    let size = tile_size();
    let cases = [
        (Directions::East, 400, 300, Some(Collision::Right)),
        (Directions::West, 200, 300, Some(Collision::Left)),
        (Directions::North, 300, 400, Some(Collision::Top)),
        (Directions::South, 300, 200, Some(Collision::Bottom)),
        // the tile that the player stands on does not lie at the destination
        (Directions::East, 300, 300, None),
        // nor does the tile two steps away, which only touches the destination
        (Directions::East, 500, 300, None),
        // nor the tiles beside the destination
        (Directions::East, 400, 400, None),
        (Directions::East, 400, 200, None),
        (Directions::North, 400, 400, None),
        (Directions::North, 200, 400, None),
        // a collider that overlaps the destination by one unit
        (Directions::East, 499, 399, Some(Collision::Right)),
        (Directions::East, 301, 201, Some(Collision::Right)),
        (Directions::East, 500, 399, None),
        (Directions::East, 499, 400, None),
        // without a direction nothing is looked at
        (Directions::NoDirection, 300, 300, None),
    ];
    for (direction, x, y, expected) in cases {
        let mut picture = sprite();
        let found = check_for_collision(
            &direction,
            &Translation { x, y },
            &size,
            &player,
            &mut picture,
        );
        assert_eq!(found, expected, "{:?} {} {}", direction, x, y);
        assert_eq!(picture.size, size);
    }
}

#[test]
fn the_look_ahead_reckons_with_sizes() {
    let mut picture = PlayerSprite { size: SpriteSize { x: 50, y: 30 }, flip_x: false };
    let player = Translation { x: 0, y: 0 };
    // the destination box reaches from 75 to 125 along x and from -15 to 15 along y
    let big = SpriteSize { x: 10, y: 10 };
    let hit = |x: i64, y: i64, picture: &mut PlayerSprite| {
        check_for_collision(&Directions::East, &Translation { x, y }, &big, &player, picture)
    };
    assert_eq!(hit(71, 0, &mut picture), Some(Collision::Right));
    assert_eq!(hit(70, 0, &mut picture), None);
    assert_eq!(hit(129, 0, &mut picture), Some(Collision::Right));
    assert_eq!(hit(130, 0, &mut picture), None);
    assert_eq!(hit(100, 19, &mut picture), Some(Collision::Right));
    assert_eq!(hit(100, 20, &mut picture), None);
    assert_eq!(hit(100, -19, &mut picture), Some(Collision::Right));
    assert_eq!(hit(100, -20, &mut picture), None);
    // a box without extent is hit when it lies inside the destination
    let point = SpriteSize { x: 0, y: 0 };
    assert_eq!(
        check_for_collision(&Directions::East, &Translation { x: 100, y: 0 }, &point, &player, &mut picture),
        Some(Collision::Right)
    );
    assert_eq!(
        check_for_collision(&Directions::East, &Translation { x: 125, y: 0 }, &point, &player, &mut picture),
        None
    );
}

#[test]
fn the_look_ahead_turns_the_picture() {
    let player = Translation { x: 0, y: 0 };
    let size = tile_size();
    let far = Translation { x: 5000, y: 5000 };
    for start in [false, true] {
        for (direction, expected) in [
            (Directions::West, false),
            (Directions::East, true),
            (Directions::North, start),
            (Directions::South, start),
            (Directions::NoDirection, start),
        ] {
            let mut picture = PlayerSprite { size, flip_x: start };
            check_for_collision(&direction, &far, &size, &player, &mut picture);
            assert_eq!(picture.flip_x, expected);
        }
    }
}

#[test]
fn a_probe_gathers_the_contacts() {
    let player = Translation { x: 300, y: 300 };
    let colliders = vec![
        wall(400, 300),
        wall(300, 400),
        collider(200, 300, CollisionType::CollisionExit),
        collider(300, 200, CollisionType::CollisionStart),
    ];
    let clear = CollisionWith::new();
    let mut picture = sprite();
    assert_eq!(
        probe_collisions(&Directions::East, &colliders, &player, &mut picture),
        CollisionWith { right: true, ..clear }
    );
    assert!(picture.flip_x);
    assert_eq!(
        probe_collisions(&Directions::North, &colliders, &player, &mut picture),
        CollisionWith { up: true, ..clear }
    );
    assert!(picture.flip_x);
    assert_eq!(
        probe_collisions(&Directions::West, &colliders, &player, &mut picture),
        CollisionWith { exit: true, ..clear }
    );
    assert!(!picture.flip_x);
    assert_eq!(
        probe_collisions(&Directions::South, &colliders, &player, &mut picture),
        clear
    );
    assert_eq!(
        probe_collisions(&Directions::NoDirection, &colliders, &player, &mut picture),
        clear
    );
    let mut picture = sprite();
    assert_eq!(probe_collisions(&Directions::East, &vec![], &player, &mut picture), clear);
    assert!(!picture.flip_x);
    let walls = vec![wall(200, 300), wall(300, 200)];
    assert_eq!(
        probe_collisions(&Directions::West, &walls, &player, &mut picture),
        CollisionWith { left: true, ..clear }
    );
    assert_eq!(
        probe_collisions(&Directions::South, &walls, &player, &mut picture),
        CollisionWith { down: true, ..clear }
    );
}

#[test]
fn a_wall_blocks_the_move() {
    let (mut player, mut translation) = at_rest(300, 300);
    let before = player;
    let mut picture = sprite();
    let colliders = vec![wall(400, 300), wall(300, 400)];
    for direction in [Directions::East, Directions::North] {
        let outcome = move_to_next_maze_tile(
            &mut player,
            &mut translation,
            &mut picture,
            &colliders,
            &direction,
            &GameState::PlayingGame,
        );
        assert_eq!(outcome, Some(MovementOutcome::Blocked));
        assert_eq!(player, before);
        assert_eq!(translation, Translation { x: 300, y: 300 });
    }
}

#[test]
fn the_exit_is_reached_without_moving() {
    let (mut player, mut translation) = at_rest(300, 300);
    let before = player;
    let mut picture = sprite();
    let colliders = vec![wall(300, 400), collider(200, 300, CollisionType::CollisionExit)];
    let outcome = move_to_next_maze_tile(
        &mut player,
        &mut translation,
        &mut picture,
        &colliders,
        &Directions::West,
        &GameState::PlayingGame,
    );
    assert_eq!(outcome, Some(MovementOutcome::ExitReached));
    assert_eq!(player, before);
    assert_eq!(translation, Translation { x: 300, y: 300 });
}

#[test]
fn the_exit_counts_before_a_wall() {
    let (mut player, mut translation) = at_rest(0, 0);
    let before = player;
    let mut picture = sprite();
    let colliders = vec![wall(0, 100), collider(10, 90, CollisionType::CollisionExit)];
    let outcome = move_to_next_maze_tile(
        &mut player,
        &mut translation,
        &mut picture,
        &colliders,
        &Directions::North,
        &GameState::PlayingGame,
    );
    assert_eq!(outcome, Some(MovementOutcome::ExitReached));
    assert_eq!(player, before);
}

#[test]
fn a_free_move_arrives_after_twenty_ticks() {
    let steps = [
        (Directions::East, 5, 0),
        (Directions::West, -5, 0),
        (Directions::North, 0, 5),
        (Directions::South, 0, -5),
    ];
    for (direction, dx, dy) in steps {
        let (mut player, mut translation) = at_rest(300, 700);
        let mut picture = sprite();
        // the start tile under the player and walls round the free way do not count
        let colliders = vec![
            collider(300, 700, CollisionType::CollisionStart),
            wall(300 + 40 * dx, 700 + 40 * dy),
            wall(300 + 20 * dx + 20 * dy, 700 + 20 * dy + 20 * dx),
        ];
        let outcome = move_to_next_maze_tile(
            &mut player,
            &mut translation,
            &mut picture,
            &colliders,
            &direction,
            &GameState::PlayingGame,
        );
        assert_eq!(outcome, Some(MovementOutcome::Moved));
        assert_eq!(player.moving, direction);
        assert_eq!(
            (player.next_position_x, player.next_position_y),
            (300 + 20 * dx, 700 + 20 * dy)
        );
        assert_eq!((player.position_x, player.position_y), (300, 700));
        assert_eq!(translation, Translation { x: 300, y: 700 });
        for tick in 1..=19 {
            let outcome = move_to_next_maze_tile(
                &mut player,
                &mut translation,
                &mut picture,
                &colliders,
                &Directions::NoDirection,
                &GameState::PlayingGame,
            );
            assert_eq!(outcome, None);
            assert_eq!(player.moving, direction);
            assert_eq!(translation, Translation { x: 300 + tick * dx, y: 700 + tick * dy });
            assert_eq!((player.position_x, player.position_y), (300, 700));
        }
        let outcome = move_to_next_maze_tile(
            &mut player,
            &mut translation,
            &mut picture,
            &colliders,
            &Directions::NoDirection,
            &GameState::PlayingGame,
        );
        assert_eq!(outcome, None);
        assert_eq!(player.moving, Directions::NoDirection);
        assert_eq!(translation, Translation { x: 300 + 20 * dx, y: 700 + 20 * dy });
        assert_eq!(
            (player.position_x, player.position_y),
            (300 + 20 * dx, 700 + 20 * dy)
        );
        assert_eq!(
            (player.next_position_x, player.next_position_y),
            (300 + 20 * dx, 700 + 20 * dy)
        );
        // at rest again, a tick changes nothing
        let rested = player;
        let outcome = move_to_next_maze_tile(
            &mut player,
            &mut translation,
            &mut picture,
            &colliders,
            &Directions::NoDirection,
            &GameState::PlayingGame,
        );
        assert_eq!(outcome, None);
        assert_eq!(player, rested);
    }
}

#[test]
fn a_request_while_moving_is_ignored() {
    let colliders = vec![wall(500, 300)];
    for requested in [
        Directions::North,
        Directions::South,
        Directions::East,
        Directions::West,
    ] {
        let (mut player, mut translation) = at_rest(300, 300);
        let mut picture = sprite();
        move_to_next_maze_tile(
            &mut player,
            &mut translation,
            &mut picture,
            &colliders,
            &Directions::East,
            &GameState::PlayingGame,
        );
        let mut other = player;
        let mut other_translation = translation;
        let mut other_picture = picture;
        let outcome = move_to_next_maze_tile(
            &mut player,
            &mut translation,
            &mut picture,
            &colliders,
            &requested,
            &GameState::PlayingGame,
        );
        let silent = move_to_next_maze_tile(
            &mut other,
            &mut other_translation,
            &mut other_picture,
            &colliders,
            &Directions::NoDirection,
            &GameState::PlayingGame,
        );
        assert_eq!(outcome, None);
        assert_eq!(silent, None);
        assert_eq!(player, other);
        assert_eq!(translation, other_translation);
        assert_eq!(picture, other_picture);
        assert_eq!(player.moving, Directions::East);
        assert_eq!((player.next_position_x, player.next_position_y), (400, 300));
        assert_eq!(translation, Translation { x: 305, y: 300 });
    }
}

#[test]
fn outside_play_nothing_moves() {
    for state in [
        GameState::StartMenu,
        GameState::Settings,
        GameState::Save,
        GameState::GenerateNewGame,
        GameState::LoadingAssets,
    ] {
        let (mut player, mut translation) = at_rest(300, 300);
        let before = player;
        let mut picture = sprite();
        let outcome = move_to_next_maze_tile(
            &mut player,
            &mut translation,
            &mut picture,
            &vec![],
            &Directions::East,
            &state,
        );
        assert_eq!(outcome, None);
        assert_eq!(player, before);
        assert_eq!(translation, Translation { x: 300, y: 300 });
        player.moving = Directions::East;
        player.next_position_x = 400;
        let moving = player;
        let outcome = move_to_next_maze_tile(
            &mut player,
            &mut translation,
            &mut picture,
            &vec![],
            &Directions::NoDirection,
            &state,
        );
        assert_eq!(outcome, None);
        assert_eq!(player, moving);
        assert_eq!(translation, Translation { x: 300, y: 300 });
    }
}

#[test]
fn the_last_request_of_a_tick_counts() {
    let (mut player, mut translation) = at_rest(300, 300);
    let mut picture = sprite();
    let colliders = vec![wall(400, 300)];
    let events = vec![
        ChangeDirectionEvent(Directions::East),
        ChangeDirectionEvent(Directions::North),
    ];
    let outcome = check_direction_change(
        &mut player,
        &mut translation,
        &mut picture,
        &colliders,
        &events,
        &GameState::PlayingGame,
    );
    assert_eq!(outcome, Some(MovementOutcome::Moved));
    assert_eq!(player.moving, Directions::North);
    let (mut player, mut translation) = at_rest(300, 300);
    let events = vec![
        ChangeDirectionEvent(Directions::North),
        ChangeDirectionEvent(Directions::East),
    ];
    let outcome = check_direction_change(
        &mut player,
        &mut translation,
        &mut picture,
        &colliders,
        &events,
        &GameState::PlayingGame,
    );
    assert_eq!(outcome, Some(MovementOutcome::Blocked));
    let before = player;
    let outcome = check_direction_change(
        &mut player,
        &mut translation,
        &mut picture,
        &colliders,
        &vec![],
        &GameState::PlayingGame,
    );
    assert_eq!(outcome, None);
    assert_eq!(player, before);
}

#[test]
fn setting_out_sets_the_target() {
    let translation = Translation { x: -40, y: 15 };
    for (direction, x, y) in [
        (Directions::West, -140, 15),
        (Directions::East, 60, 15),
        (Directions::North, -40, 115),
        (Directions::South, -40, -85),
    ] {
        let mut player = Player::new();
        set_next_player_position(&direction, &mut player, &translation);
        assert_eq!(player.moving, direction);
        assert_eq!((player.next_position_x, player.next_position_y), (x, y));
        assert_eq!((player.position_x, player.position_y), (0, 0));
        assert_eq!(player.direction, Directions::North);
    }
    let mut player = Player::new();
    set_next_player_position(&Directions::NoDirection, &mut player, &translation);
    assert_eq!(player, Player::new());
}

#[test]
fn a_tick_advances_by_the_step() {
    let mut player = Player::new();
    player.moving = Directions::South;
    player.next_position_y = -100;
    let mut translation = Translation { x: 0, y: -90 };
    handle_movement_by_collision(&mut player, &mut translation);
    assert_eq!(translation, Translation { x: 0, y: -95 });
    assert_eq!(player.moving, Directions::South);
    assert_eq!(player.position_y, 0);
    handle_movement_by_collision(&mut player, &mut translation);
    assert_eq!(translation, Translation { x: 0, y: -100 });
    assert_eq!(player.moving, Directions::NoDirection);
    assert_eq!((player.position_x, player.position_y), (0, -100));
    handle_movement_by_collision(&mut player, &mut translation);
    assert_eq!(translation, Translation { x: 0, y: -100 });
}

#[test]
fn moves_at_the_edge_of_the_world() {
    let (mut player, mut translation) = at_rest(WORLD_LIMIT, -WORLD_LIMIT);
    let mut picture = sprite();
    let colliders = vec![wall(WORLD_LIMIT, WORLD_LIMIT)];
    let outcome = move_to_next_maze_tile(
        &mut player,
        &mut translation,
        &mut picture,
        &colliders,
        &Directions::East,
        &GameState::PlayingGame,
    );
    assert_eq!(outcome, Some(MovementOutcome::Moved));
    assert_eq!(player.next_position_x, WORLD_LIMIT + 100);
    let (mut player, mut translation) = at_rest(WORLD_LIMIT, -WORLD_LIMIT);
    let outcome = move_to_next_maze_tile(
        &mut player,
        &mut translation,
        &mut picture,
        &colliders,
        &Directions::South,
        &GameState::PlayingGame,
    );
    assert_eq!(outcome, Some(MovementOutcome::Moved));
    assert_eq!(player.next_position_y, -WORLD_LIMIT - 100);
}
