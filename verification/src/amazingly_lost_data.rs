//! The state of the game that generation and movement share.

use vstd::prelude::*;
use crate::layout::MAX_MAZE_SIZE;
use crate::player::Player;

verus! {

/// The side length of a small maze, the size that a game begins with.
pub const SMALL_MAZE: u16 = 33u16;

/// The side length of a medium maze.
pub const MEDIUM_MAZE: u16 = 77u16;

/// The side length of a large maze.
pub const LARGE_MAZE: u16 = 121u16;

/// The side length from which on the maze is not made bigger.
pub const VERY_VERY_LARGE_MAZE: u16 = 231u16;

/// The largest width and the largest height of a maze: a hundred less than the
/// largest 16-bit number.
pub const MAX_MAZE_SIZE_X_OR_Y: u16 = 65435u16;

/// The state of the game that generation and movement share.
#[derive(Debug)]
pub struct AmazinglyLostData {
    /// The width and the height of the maze to make next.
    pub maze_size: (u16, u16),
    /// The solution of the current maze.
    pub maze_solution: Vec<(usize, usize)>,
    /// Where the start tile of the current maze is drawn.
    pub starting_point_sprites: (i64, i64),
    /// The cell of the current maze that holds the exit.
    pub exit_point_game: (usize, usize),
    pub player: Player,
    /// A maze is being generated: a second request to generate is ignored.
    pub is_generating_maze: bool,
    /// The assets are being loaded: a second request to load is ignored.
    pub is_loading_assets: bool,
}

impl AmazinglyLostData {
    /// The state that a game begins with: a small maze to make, no maze yet, the
    /// agent at the origin, and nothing under way.
    pub fn new() -> (data: Self)
        ensures
            data.maze_size == (SMALL_MAZE, SMALL_MAZE),
            data.maze_solution@ == Seq::<(usize, usize)>::empty(),
            data.starting_point_sprites == (0i64, 0i64),
            data.exit_point_game == (0usize, 0usize),
            data.player == Player::at_origin(),
            !data.is_generating_maze,
            !data.is_loading_assets,
    {
        AmazinglyLostData {
            maze_size: (SMALL_MAZE, SMALL_MAZE),
            maze_solution: Vec::<(usize, usize)>::new(),
            starting_point_sprites: (0, 0),
            exit_point_game: (0, 0),
            player: Player::new(),
            is_generating_maze: false,
            is_loading_assets: false,
        }
    }
}

/// The two names of the largest size stand for one number.
pub proof fn lemma_size_limits_agree()
    ensures
        MAX_MAZE_SIZE_X_OR_Y == MAX_MAZE_SIZE,
        MAX_MAZE_SIZE_X_OR_Y == u16::MAX - 100,
{
}

} // verus!
