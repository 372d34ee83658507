//! What the game does in each of its phases.

use vstd::prelude::*;
use crate::amazingly_lost_data::AmazinglyLostData;
use crate::game_state::{ChangeGameStateEvent, GameState};

verus! {

/// What the game has to do in the current tick.
#[derive(Clone, Copy, Debug, PartialEq, Eq, Structural)]
pub enum FlowAction {
    /// Nothing.
    Idle,
    /// Clear the old maze, make a new one, and then change to playing.
    GenerateMaze,
    /// Load the assets, and then change to generating a new game.
    LoadAssets,
}

/// The action that a phase calls for, given the two guards.
pub open spec fn flow_action(state: GameState, generating: bool, loading: bool) -> FlowAction {
    match state {
        GameState::GenerateNewGame => if generating {
            FlowAction::Idle
        } else {
            FlowAction::GenerateMaze
        },
        GameState::LoadingAssets => if loading {
            FlowAction::Idle
        } else {
            FlowAction::LoadAssets
        },
        _ => FlowAction::Idle,
    }
}

/// The guard against generating twice, after a tick in the given phase: it is
/// down while the game is played, up while a new game is generated, and as it
/// was in every other phase.
pub open spec fn generating_after(state: GameState, generating: bool) -> bool {
    match state {
        GameState::PlayingGame => false,
        GameState::GenerateNewGame => true,
        _ => generating,
    }
}

/// The guard against loading twice, after a tick in the given phase: it is down
/// while a new game is generated, up while the assets are loaded, and as it was
/// in every other phase.
pub open spec fn loading_after(state: GameState, loading: bool) -> bool {
    match state {
        GameState::GenerateNewGame => false,
        GameState::LoadingAssets => true,
        _ => loading,
    }
}

/// Decides what the game has to do in the current tick, and sets the guards
/// that keep a maze from being generated twice and the assets from being loaded
/// twice when the same phase is seen in two ticks.
pub fn init_game_flow(amazing_data: &mut AmazinglyLostData, game_state: &GameState) -> (action:
    FlowAction)
    ensures
        action == flow_action(
            *game_state,
            old(amazing_data).is_generating_maze,
            old(amazing_data).is_loading_assets,
        ),
        final(amazing_data).is_generating_maze == generating_after(
            *game_state,
            old(amazing_data).is_generating_maze,
        ),
        final(amazing_data).is_loading_assets == loading_after(
            *game_state,
            old(amazing_data).is_loading_assets,
        ),
        final(amazing_data).maze_size == old(amazing_data).maze_size,
        final(amazing_data).maze_solution == old(amazing_data).maze_solution,
        final(amazing_data).starting_point_sprites == old(amazing_data).starting_point_sprites,
        final(amazing_data).exit_point_game == old(amazing_data).exit_point_game,
        final(amazing_data).player == old(amazing_data).player,
{
    match game_state {
        GameState::StartMenu => FlowAction::Idle,
        GameState::PlayingGame => {
            amazing_data.is_generating_maze = false;
            FlowAction::Idle
        },
        GameState::GenerateNewGame => {
            amazing_data.is_loading_assets = false;
            if !amazing_data.is_generating_maze {
                amazing_data.is_generating_maze = true;
                FlowAction::GenerateMaze
            } else {
                FlowAction::Idle
            }
        },
        GameState::Settings => FlowAction::Idle,
        GameState::Save => FlowAction::Idle,
        GameState::LoadingAssets => {
            if !amazing_data.is_loading_assets {
                amazing_data.is_loading_assets = true;
                FlowAction::LoadAssets
            } else {
                FlowAction::Idle
            }
        },
    }
}

/// The change of phase to ask for when an action has been carried out.
pub open spec fn then_state(action: FlowAction) -> Option<ChangeGameStateEvent> {
    match action {
        FlowAction::Idle => None,
        FlowAction::GenerateMaze => Some(ChangeGameStateEvent(GameState::PlayingGame)),
        FlowAction::LoadAssets => Some(ChangeGameStateEvent(GameState::GenerateNewGame)),
    }
}

/// Tells which change of phase to ask for when an action has been carried out.
pub fn follow_up(action: FlowAction) -> (event: Option<ChangeGameStateEvent>)
    ensures
        event == then_state(action),
{
    match action {
        FlowAction::Idle => None,
        FlowAction::GenerateMaze => Some(ChangeGameStateEvent(GameState::PlayingGame)),
        FlowAction::LoadAssets => Some(ChangeGameStateEvent(GameState::GenerateNewGame)),
    }
}

/// A maze is not generated twice in a row: after a tick that asked for a maze,
/// further ticks in the same phase ask for nothing.
pub proof fn lemma_no_second_generation(generating: bool, loading: bool)
    ensures
        flow_action(
            GameState::GenerateNewGame,
            generating_after(GameState::GenerateNewGame, generating),
            loading_after(GameState::GenerateNewGame, loading),
        ) == FlowAction::Idle,
{
}

} // verus!
