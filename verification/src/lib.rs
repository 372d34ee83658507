//! Maze generation and tile-to-tile movement for a maze game, verified with Verus.
//!
//! The generator carves a rectangular maze by a randomized backtracking walk,
//! records the longest path that the walk produced as the solution, and opens a
//! few extra walls along it. The movement machine moves an agent from tile to
//! tile, probing the destination for walls and the exit before it commits.
//!
//! The functions that run are found in `maze_generator`, `player`, `game_flow`,
//! `game_state`, `keyboard_input` and `tile_factory`. What they promise is said
//! over the model of a maze in `grid` and `layout`; `corridor`, `carve`, `walk`,
//! `connect`, `finished`, `open_walls` and `painting` hold the definitions and the
//! proofs behind those promises. `maze_laws`, `movement_laws` and `maze_movement`
//! state what follows for every maze and every move.

pub mod maze_tile;
pub mod grid;
pub mod layout;
pub mod corridor;
pub mod carve;
pub mod walk;
pub mod connect;
pub mod finished;
pub mod open_walls;
pub mod painting;
pub mod random;
pub mod maze_generator;
pub mod maze_laws;
pub mod game_state;
pub mod player;
pub mod movement_laws;
pub mod maze_movement;
pub mod amazingly_lost_data;
pub mod game_flow;
pub mod keyboard_input;
pub mod tile_factory;
