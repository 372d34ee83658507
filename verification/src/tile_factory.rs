//! The choice of a picture for a tile.

use vstd::prelude::*;
use crate::maze_tile::TileType;
use crate::random::random_below;

verus! {

/// The largest number of pictures of one list, plus one.
pub const MAX_ASSETS: u8 = 50;

/// The number of values that the roll for a wall can take.
pub const MAX_CHANCE_WALLS: u8 = 100;

/// The number of those values that give a special wall.
pub const CHANCE_SPECIAL_WALL: u8 = 5;

/// The number of those values that give a normal wall.
pub const CHANCE_NORMAL_WALL: u8 = 95;

/// The number of values that the roll for the border can take.
pub const MAX_CHANCE_BORDER: u8 = 100;

/// The number of those values that give a special border.
pub const CHANCE_SPECIAL_BORDER: u8 = 5;

/// The number of those values that give a normal border.
pub const CHANCE_NORMAL_BORDER: u8 = 95;

/// The number of values that the roll for a ground can take.
pub const MAX_CHANCE_GROUNDS: u8 = 100;

/// The number of those values that give a special ground.
pub const CHANCE_SPECIAL_GROUND: u8 = 5;

/// The number of those values that give a normal ground.
pub const CHANCE_NORMAL_GROUND: u8 = 95;

/// One of the four lists of pictures.
#[derive(Clone, Copy, Debug, PartialEq, Eq, Structural)]
pub enum TileList {
    NormalWalls,
    SpecialWalls,
    NormalGrounds,
    SpecialGrounds,
}

/// A picture: the list it stands in and its place there.
#[derive(Clone, Copy, Debug, PartialEq, Eq, Structural)]
pub struct TileChoice {
    pub list: TileList,
    pub index: usize,
}

/// How many pictures each list holds.
#[derive(Clone, Copy, Debug, PartialEq, Eq, Structural)]
pub struct GameTileHandlers {
    pub normal_walls: usize,
    pub special_walls: usize,
    pub normal_grounds: usize,
    pub special_grounds: usize,
}

/// The tile is drawn as a wall: walls, the border and the exit are. The start
/// and the open cells are drawn as ground.
pub open spec fn drawn_as_wall(tile_type: TileType) -> bool {
    tile_type == TileType::Exit || tile_type == TileType::Wall || tile_type == TileType::Border
}

/// The roll gives a normal picture: it is one of the first 95 of 100.
pub open spec fn roll_is_normal(roll: u8) -> bool {
    1 <= roll <= CHANCE_NORMAL_WALL
}

impl GameTileHandlers {
    /// The number of pictures in a list.
    pub open spec fn count(self, list: TileList) -> usize {
        match list {
            TileList::NormalWalls => self.normal_walls,
            TileList::SpecialWalls => self.special_walls,
            TileList::NormalGrounds => self.normal_grounds,
            TileList::SpecialGrounds => self.special_grounds,
        }
    }

    /// The list that a wall is taken from: the normal walls where a normal wall
    /// is asked for, the special walls where a special one is asked for and
    /// there is one, the normal walls otherwise; none where that list is empty.
    pub open spec fn wall_list(self, is_normal: bool) -> Option<TileList> {
        if !is_normal && self.special_walls > 0 {
            Some(TileList::SpecialWalls)
        } else if self.normal_walls > 0 {
            Some(TileList::NormalWalls)
        } else {
            None
        }
    }

    /// The list that a ground is taken from, found as for walls.
    pub open spec fn ground_list(self, is_normal: bool) -> Option<TileList> {
        if !is_normal && self.special_grounds > 0 {
            Some(TileList::SpecialGrounds)
        } else if self.normal_grounds > 0 {
            Some(TileList::NormalGrounds)
        } else {
            None
        }
    }

    /// The list that the picture of a tile is taken from.
    pub open spec fn list_for(self, tile_type: TileType, is_normal: bool) -> Option<TileList> {
        if drawn_as_wall(tile_type) {
            self.wall_list(is_normal)
        } else {
            self.ground_list(is_normal)
        }
    }

    /// The list that a roll selects for a tile of the maze: walls, the border
    /// and open cells get a picture, normal or special as the roll says; the
    /// start and the exit have pictures of their own and get none here.
    pub open spec fn list_for_roll(self, tile_type: TileType, roll: u8) -> Option<TileList> {
        match tile_type {
            TileType::Wall | TileType::Border | TileType::Open => self.list_for(
                tile_type,
                roll_is_normal(roll),
            ),
            _ => None,
        }
    }

    /// A picture of the list that is asked for, whichever it is.
    pub open spec fn chosen_from(self, list: Option<TileList>, choice: Option<TileChoice>) -> bool {
        match list {
            Some(l) => choice matches Some(c) && c.list == l && c.index < self.count(l),
            None => choice is None,
        }
    }

    /// No pictures at all.
    pub fn new() -> (handlers: Self)
        ensures
            handlers == (GameTileHandlers {
                normal_walls: 0,
                special_walls: 0,
                normal_grounds: 0,
                special_grounds: 0,
            }),
    {
        Self { normal_walls: 0, special_walls: 0, normal_grounds: 0, special_grounds: 0 }
    }

    /// Picks a picture for a tile of the maze at random: a special one five
    /// times in a hundred, a normal one otherwise.
    pub fn get_random_game_tile(&self, tile_type: &TileType) -> (choice: Option<TileChoice>)
        ensures
            exists|roll: u8|
                1 <= roll <= MAX_CHANCE_WALLS && self.chosen_from(
                    #[trigger] self.list_for_roll(*tile_type, roll),
                    choice,
                ),
    {
        let random_number = roll_for_tile();
        self.get_tile_for_roll(tile_type, random_number)
    }

    /// Picks a picture for a tile of the maze from the list that the roll
    /// selects.
    pub fn get_tile_for_roll(&self, tile_type: &TileType, random_number: u8) -> (choice: Option<
        TileChoice,
    >)
        ensures
            self.chosen_from(self.list_for_roll(*tile_type, random_number), choice),
    {
        match tile_type {
            TileType::Wall => {
                if 1 <= random_number && random_number <= CHANCE_NORMAL_WALL {
                    self.get_game_tile(tile_type, true)
                } else {
                    self.get_game_tile(tile_type, false)
                }
            },
            TileType::Border => {
                if 1 <= random_number && random_number <= CHANCE_NORMAL_BORDER {
                    self.get_game_tile(tile_type, true)
                } else {
                    self.get_game_tile(tile_type, false)
                }
            },
            TileType::Open => {
                if 1 <= random_number && random_number <= CHANCE_NORMAL_GROUND {
                    self.get_game_tile(tile_type, true)
                } else {
                    self.get_game_tile(tile_type, false)
                }
            },
            _ => None,
        }
    }

    /// Picks a normal or a special picture for a tile.
    pub fn get_game_tile(&self, tile_type: &TileType, is_normal: bool) -> (choice: Option<
        TileChoice,
    >)
        ensures
            self.chosen_from(self.list_for(*tile_type, is_normal), choice),
    {
        self.get_handle(tile_type, is_normal)
    }

    /// Picks a picture of a wall or of a ground, as the kind of the tile asks.
    pub fn get_handle(&self, tile_type: &TileType, is_normal: bool) -> (choice: Option<TileChoice>)
        ensures
            self.chosen_from(self.list_for(*tile_type, is_normal), choice),
    {
        match tile_type {
            TileType::Start => self.get_ground(is_normal),
            TileType::Exit => self.get_a_wall(is_normal),
            TileType::Wall => self.get_a_wall(is_normal),
            TileType::Border => self.get_a_wall(is_normal),
            TileType::Open => self.get_ground(is_normal),
        }
    }

    /// Picks a wall at random: a normal one if asked for, else a special one,
    /// or a normal one where there is no special one.
    pub fn get_a_wall(&self, is_normal: bool) -> (choice: Option<TileChoice>)
        ensures
            self.chosen_from(self.wall_list(is_normal), choice),
        decreases
                (if is_normal {
                    0nat
                } else {
                    1nat
                }),
    {
        if is_normal {
            if self.normal_walls > 0 {
                Some(
                    TileChoice {
                        list: TileList::NormalWalls,
                        index: random_below(self.normal_walls),
                    },
                )
            } else {
                None
            }
        } else {
            if self.special_walls > 0 {
                Some(
                    TileChoice {
                        list: TileList::SpecialWalls,
                        index: random_below(self.special_walls),
                    },
                )
            } else {
                self.get_a_wall(true)
            }
        }
    }

    /// Picks a ground at random: a normal one if asked for, else a special one,
    /// or a normal one where there is no special one.
    pub fn get_ground(&self, is_normal: bool) -> (choice: Option<TileChoice>)
        ensures
            self.chosen_from(self.ground_list(is_normal), choice),
        decreases
                (if is_normal {
                    0nat
                } else {
                    1nat
                }),
    {
        if is_normal {
            if self.normal_grounds > 0 {
                Some(
                    TileChoice {
                        list: TileList::NormalGrounds,
                        index: random_below(self.normal_grounds),
                    },
                )
            } else {
                None
            }
        } else {
            if self.special_grounds > 0 {
                Some(
                    TileChoice {
                        list: TileList::SpecialGrounds,
                        index: random_below(self.special_grounds),
                    },
                )
            } else {
                self.get_ground(true)
            }
        }
    }
}

/// Rolls a number from 1 to 100: one more than a number drawn below 100.
pub fn roll_for_tile() -> (roll: u8)
    ensures
        1 <= roll <= MAX_CHANCE_WALLS,
        exists|draw: usize| draw < MAX_CHANCE_WALLS && roll == #[trigger] roll_of(draw),
{
    let below = random_below(100);
    roll_from_draw(below)
}

/// The roll that a drawn number gives: one more than the number.
pub open spec fn roll_of(draw: usize) -> u8 {
    (draw + 1) as u8
}

/// Turns a drawn number into a roll: the draws from 0 to 99 give the rolls from
/// 1 to 100. The draw must leave room for the one that is added.
pub fn roll_from_draw(draw: usize) -> (roll: u8)
    requires
        draw < u8::MAX,
    ensures
        roll == roll_of(draw),
        roll == draw + 1,
{
    (draw + 1) as u8
}

/// The chances of a normal and of a special picture add up.
pub proof fn lemma_chances_add_up()
    ensures
        CHANCE_NORMAL_WALL == MAX_CHANCE_WALLS - CHANCE_SPECIAL_WALL,
        CHANCE_NORMAL_BORDER == MAX_CHANCE_BORDER - CHANCE_SPECIAL_BORDER,
        CHANCE_NORMAL_GROUND == MAX_CHANCE_GROUNDS - CHANCE_SPECIAL_GROUND,
{
}

} // verus!
