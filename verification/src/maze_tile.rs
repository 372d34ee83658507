//! The tiles that a maze is made of.

use vstd::prelude::*;

verus! {

/// What a cell of the maze is.
#[derive(Clone, Copy, Debug, PartialEq, Eq, Structural)]
pub enum TileType {
    Start,
    Exit,
    Wall,
    Border,
    Open,
}

impl TileType {
    /// A cell of this kind can be walked on.
    pub open spec fn passable(self) -> bool {
        self == TileType::Open || self == TileType::Start || self == TileType::Exit
    }

    /// A cell of this kind is a permanent or standing obstacle.
    pub open spec fn solid(self) -> bool {
        self == TileType::Wall || self == TileType::Border
    }
}

/// One cell of the maze.
#[derive(Clone, Copy, Debug, PartialEq, Eq, Structural)]
pub struct MazeTile {
    /// False for obstacles and for cells that the carving walk has already taken.
    pub can_be_used: bool,
    /// Position in row-major scan order, counted from 1.
    pub id: usize,
    pub tile_type: TileType,
    pub pos_x: i64,
    pub pos_y: i64,
    pub part_of_solution: bool,
}

impl MazeTile {
    /// The tile that `new` builds.
    pub open spec fn fresh(id: usize, tile_type: TileType) -> MazeTile {
        MazeTile {
            can_be_used: !tile_type.solid(),
            id,
            tile_type,
            pos_x: 0,
            pos_y: 0,
            part_of_solution: false,
        }
    }

    /// Obstacles are never usable.
    pub open spec fn well_formed(self) -> bool {
        self.tile_type.solid() ==> !self.can_be_used
    }

    /// A tile of the given kind: usable unless it is a wall or the border, with
    /// no position and no mark yet.
    pub fn new(id: usize, tile_type: TileType) -> (tile: Self)
        ensures
            tile == Self::fresh(id, tile_type),
            tile.well_formed(),
    {
        Self {
            can_be_used: tile_type != TileType::Wall && tile_type != TileType::Border,
            id,
            tile_type,
            pos_x: 0,
            pos_y: 0,
            part_of_solution: false,
        }
    }
}

/// A named group of tiles with a position of its own.
#[derive(Clone, Debug)]
pub struct MazeRegion {
    pub id: usize,
    pub pos_x: i64,
    pub pos_y: i64,
    pub region_maze_tiles: Vec<MazeTile>,
}

impl MazeRegion {
    /// A region at the given position, without tiles.
    pub fn new(id: usize, pos_x: i64, pos_y: i64) -> (region: Self)
        ensures
            region.id == id,
            region.pos_x == pos_x,
            region.pos_y == pos_y,
            region.region_maze_tiles@ == Seq::<MazeTile>::empty(),
    {
        Self { id, pos_x, pos_y, region_maze_tiles: Vec::<MazeTile>::new() }
    }
}

} // verus!
