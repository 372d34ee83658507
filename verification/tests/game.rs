use amazingly_lost::amazingly_lost_data::{
    AmazinglyLostData, LARGE_MAZE, MAX_MAZE_SIZE_X_OR_Y, MEDIUM_MAZE, SMALL_MAZE,
    VERY_VERY_LARGE_MAZE,
};
use amazingly_lost::game_flow::{follow_up, init_game_flow, FlowAction};
use amazingly_lost::game_state::{check_game_state_change, ChangeGameStateEvent, GameState};
use amazingly_lost::keyboard_input::{
    check_for_player_movement, keyboard_input_game, GameKeys, KeyAction, MovementKeys,
    MAZE_SIZE_SCALING,
};
use amazingly_lost::maze_generator::{
    create_maze_from_choices, create_new_maze, maze_colliders, paint_the_maze,
    place_player_in_maze, MazeError,
};
use amazingly_lost::maze_tile::TileType;
use amazingly_lost::painting::GameTile;
use amazingly_lost::player::{
    move_to_next_maze_tile, ChangeDirectionEvent, Collider, CollisionTile, CollisionType,
    Directions, MovementOutcome, Player, PlayerSprite, SpriteSize, Translation,
};

fn no_keys() -> GameKeys {
    GameKeys {
        n: false,
        p: false,
        q: false,
        escape: false,
        page_up: false,
        page_down: false,
        o: false,
        i: false,
    }
}

fn no_movement_keys() -> MovementKeys {
    MovementKeys {
        up: false,
        w: false,
        down: false,
        s: false,
        right: false,
        d: false,
        left: false,
        a: false,
    }
}

#[test]
fn the_game_begins_with_a_small_maze() {
    let data = AmazinglyLostData::new();
    assert_eq!(data.maze_size, (33, 33));
    assert!(data.maze_solution.is_empty());
    assert_eq!(data.starting_point_sprites, (0, 0));
    assert_eq!(data.exit_point_game, (0, 0));
    assert_eq!(data.player, Player::new());
    assert!(!data.is_generating_maze);
    assert!(!data.is_loading_assets);
    assert_eq!(
        (SMALL_MAZE, MEDIUM_MAZE, LARGE_MAZE, VERY_VERY_LARGE_MAZE),
        (33, 77, 121, 231)
    );
    assert_eq!(MAX_MAZE_SIZE_X_OR_Y, u16::MAX - 100);
}

#[test]
fn a_maze_is_generated_once() {
    let mut data = AmazinglyLostData::new();
    assert_eq!(
        init_game_flow(&mut data, &GameState::LoadingAssets),
        FlowAction::LoadAssets
    );
    assert!(data.is_loading_assets);
    assert_eq!(init_game_flow(&mut data, &GameState::LoadingAssets), FlowAction::Idle);
    assert!(data.is_loading_assets);
    assert_eq!(
        init_game_flow(&mut data, &GameState::GenerateNewGame),
        FlowAction::GenerateMaze
    );
    assert!(data.is_generating_maze);
    assert!(!data.is_loading_assets);
    assert_eq!(init_game_flow(&mut data, &GameState::GenerateNewGame), FlowAction::Idle);
    assert_eq!(init_game_flow(&mut data, &GameState::GenerateNewGame), FlowAction::Idle);
    assert!(data.is_generating_maze);
    assert_eq!(init_game_flow(&mut data, &GameState::PlayingGame), FlowAction::Idle);
    assert!(!data.is_generating_maze);
    assert_eq!(
        init_game_flow(&mut data, &GameState::GenerateNewGame),
        FlowAction::GenerateMaze
    );
    for state in [GameState::StartMenu, GameState::Settings, GameState::Save] {
        assert_eq!(init_game_flow(&mut data, &state), FlowAction::Idle);
        assert!(data.is_generating_maze);
        assert!(!data.is_loading_assets);
    }
}

#[test]
fn what_follows_an_action() {
    assert_eq!(follow_up(FlowAction::Idle), None);
    assert_eq!(
        follow_up(FlowAction::GenerateMaze),
        Some(ChangeGameStateEvent(GameState::PlayingGame))
    );
    assert_eq!(
        follow_up(FlowAction::LoadAssets),
        Some(ChangeGameStateEvent(GameState::GenerateNewGame))
    );
}

#[test]
fn a_request_for_another_phase_is_scheduled() {
    let playing = ChangeGameStateEvent(GameState::PlayingGame);
    let generate = ChangeGameStateEvent(GameState::GenerateNewGame);
    assert_eq!(check_game_state_change(&vec![], &GameState::PlayingGame), None);
    assert_eq!(
        check_game_state_change(&vec![playing], &GameState::PlayingGame),
        None
    );
    assert_eq!(
        check_game_state_change(&vec![generate], &GameState::PlayingGame),
        Some(GameState::GenerateNewGame)
    );
    assert_eq!(
        check_game_state_change(&vec![playing, generate, playing], &GameState::PlayingGame),
        Some(GameState::GenerateNewGame)
    );
    assert_eq!(
        check_game_state_change(&vec![playing, playing], &GameState::LoadingAssets),
        Some(GameState::PlayingGame)
    );
}

#[test]
fn held_keys_ask_for_a_direction() {
    let rest = Player::new();
    let none = no_movement_keys();
    assert_eq!(check_for_player_movement(&none, &rest), None);
    let cases = [
        (MovementKeys { up: true, ..none }, Directions::North),
        (MovementKeys { w: true, ..none }, Directions::North),
        (MovementKeys { down: true, ..none }, Directions::South),
        (MovementKeys { s: true, ..none }, Directions::South),
        (MovementKeys { right: true, ..none }, Directions::East),
        (MovementKeys { d: true, ..none }, Directions::East),
        (MovementKeys { left: true, ..none }, Directions::West),
        (MovementKeys { a: true, ..none }, Directions::West),
        (MovementKeys { up: true, down: true, left: true, ..none }, Directions::North),
        (MovementKeys { s: true, d: true, a: true, ..none }, Directions::South),
        (MovementKeys { right: true, left: true, ..none }, Directions::East),
    ];
    for (keys, direction) in cases {
        assert_eq!(
            check_for_player_movement(&keys, &rest),
            Some(ChangeDirectionEvent(direction))
        );
        let mut moving = Player::new();
        moving.moving = Directions::West;
        assert_eq!(check_for_player_movement(&keys, &moving), None);
    }
}

#[test]
fn keys_steer_the_game() {
    let none = no_keys();
    let playing = GameState::PlayingGame;
    let cases = [
        (GameKeys { n: true, ..none }, KeyAction::NewGame),
        (GameKeys { p: true, ..none }, KeyAction::ToggleSolution),
        (GameKeys { q: true, ..none }, KeyAction::ExitGame),
        (GameKeys { escape: true, ..none }, KeyAction::ExitGame),
        (GameKeys { o: true, ..none }, KeyAction::ZoomOut),
        (GameKeys { i: true, ..none }, KeyAction::ZoomIn),
        (GameKeys { o: true, i: true, ..none }, KeyAction::ZoomOut),
        (GameKeys { n: true, p: true, q: true, ..none }, KeyAction::NewGame),
        (GameKeys { p: true, escape: true, o: true, ..none }, KeyAction::ToggleSolution),
        (none, KeyAction::Nothing),
    ];
    for (keys, action) in cases {
        let mut data = AmazinglyLostData::new();
        assert_eq!(keyboard_input_game(&keys, &mut data, &playing), action);
        assert_eq!(data.maze_size, (33, 33));
        assert_eq!(
            keyboard_input_game(&keys, &mut data, &GameState::StartMenu),
            KeyAction::Nothing
        );
    }
}

#[test]
fn page_keys_change_the_size() {
    assert_eq!(MAZE_SIZE_SCALING, 33);
    let none = no_keys();
    let up = GameKeys { page_up: true, ..none };
    let down = GameKeys { page_down: true, ..none };
    let playing = GameState::PlayingGame;
    let mut data = AmazinglyLostData::new();
    assert_eq!(keyboard_input_game(&down, &mut data, &playing), KeyAction::Nothing);
    assert_eq!(data.maze_size, (33, 33));
    let mut expected = 33;
    for _ in 0..6 {
        assert_eq!(keyboard_input_game(&up, &mut data, &playing), KeyAction::NewGame);
        expected += 33;
        assert_eq!(data.maze_size, (expected, expected));
    }
    assert_eq!(data.maze_size, (231, 231));
    assert_eq!(keyboard_input_game(&up, &mut data, &playing), KeyAction::Nothing);
    assert_eq!(data.maze_size, (231, 231));
    assert_eq!(keyboard_input_game(&up, &mut data, &GameState::Settings), KeyAction::Nothing);
    assert_eq!(keyboard_input_game(&down, &mut data, &playing), KeyAction::NewGame);
    assert_eq!(data.maze_size, (198, 198));
    let both = GameKeys { page_up: true, page_down: true, ..none };
    assert_eq!(keyboard_input_game(&both, &mut data, &playing), KeyAction::NewGame);
    assert_eq!(data.maze_size, (231, 231));
    data.maze_size = (34, 100);
    assert_eq!(keyboard_input_game(&down, &mut data, &playing), KeyAction::NewGame);
    assert_eq!(data.maze_size, (1, 67));
}

#[test]
fn page_keys_that_change_nothing_take_any_height() {
    let none = no_keys();
    let up = GameKeys { page_up: true, ..none };
    let down = GameKeys { page_down: true, ..none };
    let playing = GameState::PlayingGame;
    let mut data = AmazinglyLostData::new();
    // at the largest width PageUp changes nothing, however high the maze is
    data.maze_size = (231, 65535);
    assert_eq!(keyboard_input_game(&up, &mut data, &playing), KeyAction::Nothing);
    assert_eq!(data.maze_size, (231, 65535));
    // at the smallest width PageDown changes nothing, however low the maze is
    data.maze_size = (33, 0);
    assert_eq!(keyboard_input_game(&down, &mut data, &playing), KeyAction::Nothing);
    assert_eq!(data.maze_size, (33, 0));
    // a key that is looked at earlier decides
    data.maze_size = (100, 65535);
    let new_game = GameKeys { n: true, page_up: true, ..none };
    assert_eq!(keyboard_input_game(&new_game, &mut data, &playing), KeyAction::NewGame);
    assert_eq!(data.maze_size, (100, 65535));
    data.maze_size = (100, 0);
    let leave = GameKeys { escape: true, page_down: true, ..none };
    assert_eq!(keyboard_input_game(&leave, &mut data, &playing), KeyAction::ExitGame);
    assert_eq!(data.maze_size, (100, 0));
    // PageUp is looked at before PageDown
    data.maze_size = (100, 0);
    let both = GameKeys { page_up: true, page_down: true, ..none };
    assert_eq!(keyboard_input_game(&both, &mut data, &playing), KeyAction::NewGame);
    assert_eq!(data.maze_size, (133, 33));
    // outside play no key changes anything
    data.maze_size = (100, 65535);
    assert_eq!(
        keyboard_input_game(&up, &mut data, &GameState::Settings),
        KeyAction::Nothing
    );
    assert_eq!(data.maze_size, (100, 65535));
}

#[test]
fn the_maze_is_painted_tile_by_tile() {
    let (mut maze, solution) = create_maze_from_choices(5, 5, 0, &vec![]).unwrap();
    let mut data = AmazinglyLostData::new();
    let tiles = paint_the_maze(&solution, &mut maze, &mut data);
    assert_eq!(tiles.len(), 25);
    let wall = Some(CollisionTile { collision_type: CollisionType::CollisionWall });
    assert_eq!(
        tiles[0],
        GameTile { translation: Translation { x: 100, y: 100 }, tile_type: TileType::Border, collision: wall }
    );
    assert_eq!(
        tiles[6],
        GameTile {
            translation: Translation { x: 200, y: 200 },
            tile_type: TileType::Start,
            collision: Some(CollisionTile { collision_type: CollisionType::CollisionStart }),
        }
    );
    assert_eq!(
        tiles[7],
        GameTile { translation: Translation { x: 300, y: 200 }, tile_type: TileType::Wall, collision: wall }
    );
    assert_eq!(
        tiles[8],
        GameTile {
            translation: Translation { x: 400, y: 200 },
            tile_type: TileType::Exit,
            collision: Some(CollisionTile { collision_type: CollisionType::CollisionExit }),
        }
    );
    assert_eq!(
        tiles[11],
        GameTile { translation: Translation { x: 200, y: 300 }, tile_type: TileType::Open, collision: None }
    );
    assert_eq!(
        tiles[24],
        GameTile { translation: Translation { x: 500, y: 500 }, tile_type: TileType::Border, collision: wall }
    );
    for (i, tile) in tiles.iter().enumerate() {
        let (x, y) = (i % 5, i / 5);
        assert_eq!(tile.translation, Translation { x: 100 * (x as i64 + 1), y: 100 * (y as i64 + 1) });
        assert_eq!(tile.tile_type, maze[y][x].tile_type);
        assert_eq!(maze[y][x].part_of_solution, solution.contains(&(x, y)));
    }
    assert_eq!(data.starting_point_sprites, (200, 200));
    assert_eq!(data.maze_size, (33, 33));
    let tile = place_player_in_maze(&data);
    assert_eq!(tile.translation, Translation { x: 200, y: 200 });
    assert_eq!(tile.player, data.player);
}

#[test]
fn a_maze_without_a_start_keeps_the_place_found_before() {
    let (mut maze, solution) = create_maze_from_choices(5, 5, 0, &vec![]).unwrap();
    maze[1][1].tile_type = TileType::Open;
    let mut data = AmazinglyLostData::new();
    data.starting_point_sprites = (7, 9);
    paint_the_maze(&solution, &mut maze, &mut data);
    assert_eq!(data.starting_point_sprites, (7, 9));
}

#[test]
fn colliders_are_made_of_the_marked_tiles() {
    let (mut maze, solution) = create_maze_from_choices(5, 5, 0, &vec![]).unwrap();
    let mut data = AmazinglyLostData::new();
    let tiles = paint_the_maze(&solution, &mut maze, &mut data);
    let colliders = maze_colliders(&tiles);
    assert_eq!(colliders.len(), 25 - 5);
    let size = SpriteSize { x: 100, y: 100 };
    assert_eq!(
        colliders[6],
        Collider {
            translation: Translation { x: 200, y: 200 },
            size,
            tile: CollisionTile { collision_type: CollisionType::CollisionStart },
        }
    );
    let expected: Vec<Collider> = tiles
        .iter()
        .filter(|tile| tile.collision.is_some())
        .map(|tile| Collider { translation: tile.translation, size, tile: tile.collision.unwrap() })
        .collect();
    assert_eq!(colliders, expected);
    assert_eq!(maze_colliders(&vec![]), vec![]);
}

#[test]
fn a_new_maze_fills_the_state_of_the_game() {
    let mut data = AmazinglyLostData::new();
    data.maze_size = (21, 15);
    data.player.moving = Directions::West;
    data.player.direction = Directions::South;
    data.is_generating_maze = true;
    let (maze, tiles, player_tile) = create_new_maze(&mut data).unwrap();
    assert_eq!(maze.len(), 15);
    assert_eq!(maze[0].len(), 21);
    assert_eq!(tiles.len(), 21 * 15);
    let solution = data.maze_solution.clone();
    let (sx, sy) = solution[0];
    let (ex, ey) = *solution.last().unwrap();
    assert_eq!(maze[sy][sx].tile_type, TileType::Start);
    assert_eq!(maze[ey][ex].tile_type, TileType::Exit);
    assert_eq!(data.exit_point_game, (ex, ey));
    let start = (100 * (sx as i64 + 1), 100 * (sy as i64 + 1));
    assert_eq!(data.starting_point_sprites, start);
    assert_eq!(
        (data.player.position_x, data.player.position_y),
        (sx as i64, sy as i64)
    );
    assert_eq!((data.player.next_position_x, data.player.next_position_y), start);
    assert_eq!(data.player.moving, Directions::NoDirection);
    assert_eq!(data.player.direction, Directions::South);
    assert_eq!(player_tile.translation, Translation { x: start.0, y: start.1 });
    assert_eq!(player_tile.player, data.player);
    assert_eq!(data.maze_size, (21, 15));
    assert!(data.is_generating_maze);
    for (y, row) in maze.iter().enumerate() {
        for (x, tile) in row.iter().enumerate() {
            assert_eq!(tile.part_of_solution, solution.contains(&(x, y)));
        }
    }
}

#[test]
fn a_new_maze_of_a_bad_size_is_refused() {
    let mut data = AmazinglyLostData::new();
    data.maze_size = (4, 33);
    data.starting_point_sprites = (1, 2);
    assert_eq!(create_new_maze(&mut data).err(), Some(MazeError::TooSmall));
    assert_eq!(data.starting_point_sprites, (1, 2));
    assert!(data.maze_solution.is_empty());
    assert_eq!(data.player, Player::new());
    data.maze_size = (33, 65500);
    assert_eq!(create_new_maze(&mut data).err(), Some(MazeError::TooLarge));
}

#[test]
fn the_solution_can_be_walked_to_the_exit() {
    let mut data = AmazinglyLostData::new();
    data.maze_size = (15, 11);
    let (maze, tiles, player_tile) = create_new_maze(&mut data).unwrap();
    let colliders = maze_colliders(&tiles);
    let mut player = player_tile.player;
    let mut translation = player_tile.translation;
    let mut picture = PlayerSprite { size: SpriteSize { x: 100, y: 100 }, flip_x: false };
    let playing = GameState::PlayingGame;
    let solution = data.maze_solution.clone();
    for step in 1..solution.len() {
        let (px, py) = solution[step - 1];
        let (nx, ny) = solution[step];
        let direction = if nx > px {
            Directions::East
        } else if nx < px {
            Directions::West
        } else if ny > py {
            Directions::North
        } else {
            Directions::South
        };
        // every wall and the border beside the cell block
        for (other, dx, dy) in [
            (Directions::East, 1i64, 0i64),
            (Directions::West, -1, 0),
            (Directions::North, 0, 1),
            (Directions::South, 0, -1),
        ] {
            let kind = maze[(py as i64 + dy) as usize][(px as i64 + dx) as usize].tile_type;
            if kind == TileType::Wall || kind == TileType::Border {
                let before = player;
                let outcome = move_to_next_maze_tile(
                    &mut player,
                    &mut translation,
                    &mut picture,
                    &colliders,
                    &other,
                    &playing,
                );
                assert_eq!(outcome, Some(MovementOutcome::Blocked));
                assert_eq!(player, before);
            }
        }
        let outcome = move_to_next_maze_tile(
            &mut player,
            &mut translation,
            &mut picture,
            &colliders,
            &direction,
            &playing,
        );
        if step == solution.len() - 1 {
            assert_eq!(outcome, Some(MovementOutcome::ExitReached));
            assert_eq!(player.moving, Directions::NoDirection);
            assert_eq!(
                translation,
                Translation { x: 100 * (px as i64 + 1), y: 100 * (py as i64 + 1) }
            );
        } else {
            assert_eq!(outcome, Some(MovementOutcome::Moved));
            for _ in 0..20 {
                assert_eq!(player.moving, direction);
                let outcome = move_to_next_maze_tile(
                    &mut player,
                    &mut translation,
                    &mut picture,
                    &colliders,
                    &Directions::NoDirection,
                    &playing,
                );
                assert_eq!(outcome, None);
            }
            assert_eq!(player.moving, Directions::NoDirection);
            assert_eq!(
                translation,
                Translation { x: 100 * (nx as i64 + 1), y: 100 * (ny as i64 + 1) }
            );
        }
    }
}
