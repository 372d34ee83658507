use amazingly_lost::maze_tile::TileType;
use amazingly_lost::tile_factory::{
    roll_for_tile, roll_from_draw, GameTileHandlers, TileChoice, TileList, CHANCE_NORMAL_BORDER,
    CHANCE_NORMAL_GROUND, CHANCE_NORMAL_WALL, CHANCE_SPECIAL_BORDER, CHANCE_SPECIAL_GROUND,
    CHANCE_SPECIAL_WALL, MAX_ASSETS, MAX_CHANCE_BORDER, MAX_CHANCE_GROUNDS, MAX_CHANCE_WALLS,
};

fn full() -> GameTileHandlers {
    GameTileHandlers { normal_walls: 3, special_walls: 2, normal_grounds: 4, special_grounds: 1 }
}

#[test]
fn the_chances_add_up_to_a_hundred() {
    assert_eq!(MAX_ASSETS, 50);
    assert_eq!((MAX_CHANCE_WALLS, CHANCE_SPECIAL_WALL, CHANCE_NORMAL_WALL), (100, 5, 95));
    assert_eq!((MAX_CHANCE_BORDER, CHANCE_SPECIAL_BORDER, CHANCE_NORMAL_BORDER), (100, 5, 95));
    assert_eq!((MAX_CHANCE_GROUNDS, CHANCE_SPECIAL_GROUND, CHANCE_NORMAL_GROUND), (100, 5, 95));
}

#[test]
fn new_handlers_hold_no_pictures() {
    let empty = GameTileHandlers::new();
    assert_eq!(
        empty,
        GameTileHandlers { normal_walls: 0, special_walls: 0, normal_grounds: 0, special_grounds: 0 }
    );
    for kind in [TileType::Start, TileType::Exit, TileType::Wall, TileType::Border, TileType::Open] {
        assert_eq!(empty.get_random_game_tile(&kind), None);
        assert_eq!(empty.get_handle(&kind, true), None);
        assert_eq!(empty.get_handle(&kind, false), None);
    }
}

#[test]
fn a_roll_selects_the_list() {
    let handlers = full();
    let cases = [
        (TileType::Wall, 1, Some((TileList::NormalWalls, 3))),
        (TileType::Wall, 95, Some((TileList::NormalWalls, 3))),
        (TileType::Wall, 96, Some((TileList::SpecialWalls, 2))),
        (TileType::Wall, 100, Some((TileList::SpecialWalls, 2))),
        (TileType::Wall, 0, Some((TileList::SpecialWalls, 2))),
        (TileType::Border, 95, Some((TileList::NormalWalls, 3))),
        (TileType::Border, 96, Some((TileList::SpecialWalls, 2))),
        (TileType::Open, 95, Some((TileList::NormalGrounds, 4))),
        (TileType::Open, 96, Some((TileList::SpecialGrounds, 1))),
        (TileType::Start, 50, None),
        (TileType::Exit, 50, None),
        (TileType::Start, 99, None),
    ];
    for (kind, roll, expected) in cases {
        for _ in 0..20 {
            let choice = handlers.get_tile_for_roll(&kind, roll);
            match (choice, expected) {
                (Some(TileChoice { list, index }), Some((wanted, count))) => {
                    assert_eq!(list, wanted);
                    assert!(index < count);
                }
                (None, None) => {}
                other => panic!("{:?} {} gave {:?}", kind, roll, other),
            }
        }
    }
}

#[test]
fn special_pictures_fall_back_to_normal_ones() {
    let handlers = GameTileHandlers { normal_walls: 2, special_walls: 0, normal_grounds: 1, special_grounds: 0 };
    for _ in 0..20 {
        let wall = handlers.get_a_wall(false).unwrap();
        assert_eq!(wall.list, TileList::NormalWalls);
        assert!(wall.index < 2);
        assert_eq!(
            handlers.get_ground(false),
            Some(TileChoice { list: TileList::NormalGrounds, index: 0 })
        );
        assert_eq!(
            handlers.get_tile_for_roll(&TileType::Open, 100),
            Some(TileChoice { list: TileList::NormalGrounds, index: 0 })
        );
    }
    let only_special = GameTileHandlers { normal_walls: 0, special_walls: 1, normal_grounds: 0, special_grounds: 1 };
    assert_eq!(only_special.get_a_wall(true), None);
    assert_eq!(only_special.get_ground(true), None);
    assert_eq!(
        only_special.get_a_wall(false),
        Some(TileChoice { list: TileList::SpecialWalls, index: 0 })
    );
    assert_eq!(
        only_special.get_ground(false),
        Some(TileChoice { list: TileList::SpecialGrounds, index: 0 })
    );
}

#[test]
fn the_kind_of_tile_selects_wall_or_ground() {
    let handlers = full();
    for (kind, normal, special) in [
        (TileType::Start, TileList::NormalGrounds, TileList::SpecialGrounds),
        (TileType::Open, TileList::NormalGrounds, TileList::SpecialGrounds),
        (TileType::Exit, TileList::NormalWalls, TileList::SpecialWalls),
        (TileType::Wall, TileList::NormalWalls, TileList::SpecialWalls),
        (TileType::Border, TileList::NormalWalls, TileList::SpecialWalls),
    ] {
        assert_eq!(handlers.get_handle(&kind, true).unwrap().list, normal);
        assert_eq!(handlers.get_handle(&kind, false).unwrap().list, special);
        assert_eq!(handlers.get_game_tile(&kind, true).unwrap().list, normal);
        assert_eq!(handlers.get_game_tile(&kind, false).unwrap().list, special);
    }
}

#[test]
fn random_pictures_come_from_the_lists() {
    let handlers = full();
    let mut special = 0;
    for _ in 0..2000 {
        let choice = handlers.get_random_game_tile(&TileType::Wall).unwrap();
        match choice.list {
            TileList::NormalWalls => assert!(choice.index < 3),
            TileList::SpecialWalls => {
                assert!(choice.index < 2);
                special += 1;
            }
            other => panic!("a wall from {:?}", other),
        }
        let ground = handlers.get_random_game_tile(&TileType::Open).unwrap();
        assert!(ground.list == TileList::NormalGrounds || ground.list == TileList::SpecialGrounds);
        assert_eq!(handlers.get_random_game_tile(&TileType::Start), None);
        assert_eq!(handlers.get_random_game_tile(&TileType::Exit), None);
    }
    assert!(special > 0 && special < 400);
}

#[test]
fn rolls_lie_between_one_and_a_hundred() {
    let mut lowest = 100;
    let mut highest = 1;
    for _ in 0..5000 {
        let roll = roll_for_tile();
        assert!((1..=100).contains(&roll));
        lowest = lowest.min(roll);
        highest = highest.max(roll);
    }
    assert!(lowest <= 5 && highest >= 96);
}

#[test]
fn a_draw_gives_the_roll_one_above_it() {
    assert_eq!(roll_from_draw(0), 1);
    assert_eq!(roll_from_draw(94), 95);
    assert_eq!(roll_from_draw(95), 96);
    assert_eq!(roll_from_draw(99), 100);
    assert_eq!(roll_from_draw(254), 255);
}
