//! What the keys ask of the agent and of the game.

use vstd::prelude::*;
use crate::amazingly_lost_data::{AmazinglyLostData, SMALL_MAZE, VERY_VERY_LARGE_MAZE};
use crate::game_state::GameState;
use crate::player::{ChangeDirectionEvent, Directions, Player};

verus! {

/// By how much a side of the maze grows or shrinks at a key press.
pub const MAZE_SIZE_SCALING: u16 = 33u16;

/// The keys that steer the agent, each with whether it is held down.
#[derive(Clone, Copy, Debug, PartialEq, Eq, Structural)]
pub struct MovementKeys {
    pub up: bool,
    pub w: bool,
    pub down: bool,
    pub s: bool,
    pub right: bool,
    pub d: bool,
    pub left: bool,
    pub a: bool,
}

/// The keys that steer the game, each with whether it has just been pressed.
#[derive(Clone, Copy, Debug, PartialEq, Eq, Structural)]
pub struct GameKeys {
    pub n: bool,
    pub p: bool,
    pub q: bool,
    pub escape: bool,
    pub page_up: bool,
    pub page_down: bool,
    pub o: bool,
    pub i: bool,
}

/// What a key press asks of the game.
#[derive(Clone, Copy, Debug, PartialEq, Eq, Structural)]
pub enum KeyAction {
    /// No key that steers the game was pressed, or the key has no effect now.
    Nothing,
    /// Make a new maze.
    NewGame,
    /// Show the solution if it is hidden, hide it if it is shown.
    ToggleSolution,
    /// Leave the game.
    ExitGame,
    /// Zoom out by one step.
    ZoomOut,
    /// Zoom in by one step.
    ZoomIn,
}

/// The direction that the held keys ask for: north before south before east
/// before west.
pub open spec fn direction_of(keys: MovementKeys) -> Directions {
    if keys.up || keys.w {
        Directions::North
    } else if keys.down || keys.s {
        Directions::South
    } else if keys.right || keys.d {
        Directions::East
    } else if keys.left || keys.a {
        Directions::West
    } else {
        Directions::NoDirection
    }
}

/// The request to move that the held keys make of an agent: none while the
/// agent moves, and none where no key is held.
pub open spec fn movement_request(keys: MovementKeys, player: Player) -> Option<
    ChangeDirectionEvent,
> {
    if player.moving == Directions::NoDirection && direction_of(keys) != Directions::NoDirection {
        Some(ChangeDirectionEvent(direction_of(keys)))
    } else {
        None
    }
}

/// Turns the held keys into a request to move, unless the agent is moving.
pub fn check_for_player_movement(keyboard_input: &MovementKeys, player: &Player) -> (request:
    Option<ChangeDirectionEvent>)
    ensures
        request == movement_request(*keyboard_input, *player),
{
    if player.moving == Directions::NoDirection {
        if keyboard_input.up || keyboard_input.w {
            Some(ChangeDirectionEvent(Directions::North))
        } else if keyboard_input.down || keyboard_input.s {
            Some(ChangeDirectionEvent(Directions::South))
        } else if keyboard_input.right || keyboard_input.d {
            Some(ChangeDirectionEvent(Directions::East))
        } else if keyboard_input.left || keyboard_input.a {
            Some(ChangeDirectionEvent(Directions::West))
        } else {
            None
        }
    } else {
        None
    }
}

/// What the pressed keys ask of the game, and the size of the maze afterwards.
/// The keys are looked at in the order N, P, Q or Escape, PageUp, PageDown, O, I,
/// and the first that is pressed decides.
pub open spec fn key_action(keys: GameKeys, size: (u16, u16)) -> (KeyAction, (u16, u16)) {
    if keys.n {
        (KeyAction::NewGame, size)
    } else if keys.p {
        (KeyAction::ToggleSolution, size)
    } else if keys.q || keys.escape {
        (KeyAction::ExitGame, size)
    } else if keys.page_up {
        if size.0 < VERY_VERY_LARGE_MAZE {
            (
                KeyAction::NewGame,
                ((size.0 + MAZE_SIZE_SCALING) as u16, (size.1 + MAZE_SIZE_SCALING) as u16),
            )
        } else {
            (KeyAction::Nothing, size)
        }
    } else if keys.page_down {
        if size.0 > SMALL_MAZE {
            (
                KeyAction::NewGame,
                ((size.0 - MAZE_SIZE_SCALING) as u16, (size.1 - MAZE_SIZE_SCALING) as u16),
            )
        } else {
            (KeyAction::Nothing, size)
        }
    } else if keys.o {
        (KeyAction::ZoomOut, size)
    } else if keys.i {
        (KeyAction::ZoomIn, size)
    } else {
        (KeyAction::Nothing, size)
    }
}

/// The pressed keys make the maze to come bigger: the game is played, no key
/// that is looked at before PageUp is pressed, PageUp is, and the width is below
/// the size from which on the maze is not made bigger.
pub open spec fn grows_maze(keys: GameKeys, size: (u16, u16), state: GameState) -> bool {
    &&& state == GameState::PlayingGame
    &&& !keys.n && !keys.p && !keys.q && !keys.escape
    &&& keys.page_up
    &&& size.0 < VERY_VERY_LARGE_MAZE
}

/// The pressed keys make the maze to come smaller: the game is played, no key
/// that is looked at before PageDown is pressed, PageDown is, and the width is
/// above that of a small maze.
pub open spec fn shrinks_maze(keys: GameKeys, size: (u16, u16), state: GameState) -> bool {
    &&& state == GameState::PlayingGame
    &&& !keys.n && !keys.p && !keys.q && !keys.escape && !keys.page_up
    &&& keys.page_down
    &&& size.0 > SMALL_MAZE
}

/// Decides what the pressed keys ask of the game while it is played, and makes
/// the maze to come bigger or smaller where PageUp or PageDown ask for it.
/// Outside play the keys ask for nothing.
pub fn keyboard_input_game(
    keyboard_input: &GameKeys,
    amazing_data: &mut AmazinglyLostData,
    game_state: &GameState,
) -> (action: KeyAction)
    requires
        grows_maze(*keyboard_input, old(amazing_data).maze_size, *game_state) ==> old(
            amazing_data
        ).maze_size.1 <= u16::MAX - MAZE_SIZE_SCALING,
        shrinks_maze(*keyboard_input, old(amazing_data).maze_size, *game_state) ==> old(
            amazing_data
        ).maze_size.1 >= MAZE_SIZE_SCALING,
    ensures
        *game_state == GameState::PlayingGame ==> (action, final(amazing_data).maze_size)
            == key_action(*keyboard_input, old(amazing_data).maze_size),
        *game_state != GameState::PlayingGame ==> action == KeyAction::Nothing,
        *game_state != GameState::PlayingGame ==> final(amazing_data).maze_size == old(
            amazing_data
        ).maze_size,
        final(amazing_data).maze_solution == old(amazing_data).maze_solution,
        final(amazing_data).starting_point_sprites == old(amazing_data).starting_point_sprites,
        final(amazing_data).exit_point_game == old(amazing_data).exit_point_game,
        final(amazing_data).player == old(amazing_data).player,
        final(amazing_data).is_generating_maze == old(amazing_data).is_generating_maze,
        final(amazing_data).is_loading_assets == old(amazing_data).is_loading_assets,
{
    if *game_state == GameState::PlayingGame {
        if keyboard_input.n {
            KeyAction::NewGame
        } else if keyboard_input.p {
            KeyAction::ToggleSolution
        } else if keyboard_input.q || keyboard_input.escape {
            KeyAction::ExitGame
        } else if keyboard_input.page_up {
            if amazing_data.maze_size.0 < VERY_VERY_LARGE_MAZE {
                amazing_data.maze_size = (
                    amazing_data.maze_size.0 + MAZE_SIZE_SCALING,
                    amazing_data.maze_size.1 + MAZE_SIZE_SCALING,
                );
                KeyAction::NewGame
            } else {
                KeyAction::Nothing
            }
        } else if keyboard_input.page_down {
            if amazing_data.maze_size.0 > SMALL_MAZE {
                amazing_data.maze_size = (
                    amazing_data.maze_size.0 - MAZE_SIZE_SCALING,
                    amazing_data.maze_size.1 - MAZE_SIZE_SCALING,
                );
                KeyAction::NewGame
            } else {
                KeyAction::Nothing
            }
        } else if keyboard_input.o {
            KeyAction::ZoomOut
        } else if keyboard_input.i {
            KeyAction::ZoomIn
        } else {
            KeyAction::Nothing
        }
    } else {
        KeyAction::Nothing
    }
}

} // verus!
