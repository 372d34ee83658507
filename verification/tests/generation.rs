use amazingly_lost::layout::{MAX_MAZE_SIZE, MIN_MAZE_SIZE};
use amazingly_lost::maze_generator::{
    blank_maze, check_maze_size, copy_path, create_maze_from_choices, create_random_maze,
    get_new_direction, get_random_directions, initialize_maze_size, possible_directions,
    set_maze_tile_for_game, start_cell, MazeError,
};
use amazingly_lost::maze_tile::{MazeRegion, MazeTile, TileType};
use amazingly_lost::random::{draw_choices, CHOICE_RANGE};

fn picture(maze: &Vec<Vec<MazeTile>>) -> Vec<String> {
    maze.iter()
        .map(|row| {
            row.iter()
                .map(|tile| match tile.tile_type {
                    TileType::Start => 'S',
                    TileType::Exit => 'E',
                    TileType::Wall => '#',
                    TileType::Border => 'B',
                    TileType::Open => '.',
                })
                .collect::<String>()
        })
        .collect()
}

fn passable(tile: &MazeTile) -> bool {
    tile.tile_type != TileType::Wall && tile.tile_type != TileType::Border
}

/// The number of steps from `from` to every cell that can be walked to.
fn distances(maze: &Vec<Vec<MazeTile>>, from: (usize, usize)) -> Vec<Vec<Option<usize>>> {
    let height = maze.len();
    let width = maze[0].len();
    let mut found = vec![vec![None; width]; height];
    let mut queue = std::collections::VecDeque::new();
    found[from.1][from.0] = Some(0);
    queue.push_back(from);
    while let Some((x, y)) = queue.pop_front() {
        let here = found[y][x].unwrap();
        let mut next = Vec::new();
        if x > 0 {
            next.push((x - 1, y));
        }
        if y > 0 {
            next.push((x, y - 1));
        }
        if x + 1 < width {
            next.push((x + 1, y));
        }
        if y + 1 < height {
            next.push((x, y + 1));
        }
        for (nx, ny) in next {
            if passable(&maze[ny][nx]) && found[ny][nx].is_none() {
                found[ny][nx] = Some(here + 1);
                queue.push_back((nx, ny));
            }
        }
    }
    found
}

fn count(maze: &Vec<Vec<MazeTile>>, kind: TileType) -> usize {
    maze.iter()
        .map(|row| row.iter().filter(|tile| tile.tile_type == kind).count())
        .sum()
}

/// Checks of a generated maze what every generated maze must have.
fn check_generated(width: usize, height: usize, maze: &Vec<Vec<MazeTile>>, solution: &Vec<(usize, usize)>) {
    assert_eq!(maze.len(), height);
    let mut id = 0;
    for (y, row) in maze.iter().enumerate() {
        assert_eq!(row.len(), width);
        for (x, tile) in row.iter().enumerate() {
            id += 1;
            assert_eq!(tile.id, id);
            assert!(!tile.can_be_used);
            let border = x == 0 || y == 0 || x == width - 1 || y == height - 1;
            assert_eq!(tile.tile_type == TileType::Border, border);
            if !border && x % 2 == 1 && y % 2 == 1 {
                assert!(passable(tile));
            }
            if !border && x % 2 == 0 && y % 2 == 0 {
                assert_eq!(tile.tile_type, TileType::Wall);
            }
        }
    }
    assert_eq!(count(maze, TileType::Start), 1);
    assert_eq!(count(maze, TileType::Exit), 1);
    let start = solution[0];
    let exit = *solution.last().unwrap();
    assert_eq!(maze[start.1][start.0].tile_type, TileType::Start);
    assert_eq!(maze[exit.1][exit.0].tile_type, TileType::Exit);
    assert!(solution.len() >= 3);
    assert_eq!(solution.len() % 2, 1);
    for (i, &(x, y)) in solution.iter().enumerate() {
        assert!(passable(&maze[y][x]));
        assert_eq!(i % 2 == 0, x % 2 == 1 && y % 2 == 1);
        if i > 0 {
            let (px, py) = solution[i - 1];
            assert_eq!(px.abs_diff(x) + py.abs_diff(y), 1);
        }
        assert!(!solution[..i].contains(&(x, y)));
    }
    let found = distances(maze, start);
    let mut furthest = 0;
    for (y, row) in maze.iter().enumerate() {
        for (x, tile) in row.iter().enumerate() {
            assert_eq!(found[y][x].is_some(), passable(tile), "cell ({}, {})", x, y);
            if let Some(steps) = found[y][x] {
                furthest = furthest.max(steps);
            }
        }
    }
    assert_eq!(found[exit.1][exit.0], Some(solution.len() - 1));
    assert_eq!(furthest, solution.len() - 1);
}

/// A plain carving walk, written out step by step, to hold the library against.
fn plain_maze(width: usize, height: usize, start_choice: usize, choices: &[usize]) -> (Vec<String>, Vec<(usize, usize)>) {
    let mut kinds = vec![vec!['#'; width]; height];
    let mut usable = vec![vec![false; width]; height];
    let mut rooms = Vec::new();
    for y in 0..height {
        for x in 0..width {
            if y == 0 || y == height - 1 || x == 0 || x == width - 1 {
                kinds[y][x] = 'B';
            } else if x % 2 != 0 && y % 2 != 0 {
                kinds[y][x] = '.';
                usable[y][x] = true;
                rooms.push((x, y));
            }
        }
    }
    let (mut x, mut y) = rooms[start_choice % rooms.len()];
    kinds[y][x] = 'S';
    usable[y][x] = false;
    let mut stack = vec![(x, y)];
    let mut best = stack.clone();
    let mut used = 0;
    loop {
        let mut open = Vec::new();
        if kinds[y + 1][x] == '#' && usable[y + 2][x] {
            open.push((x, y + 1, x, y + 2));
        }
        if kinds[y - 1][x] == '#' && usable[y - 2][x] {
            open.push((x, y - 1, x, y - 2));
        }
        if kinds[y][x + 1] == '#' && usable[y][x + 2] {
            open.push((x + 1, y, x + 2, y));
        }
        if kinds[y][x - 1] == '#' && usable[y][x - 2] {
            open.push((x - 1, y, x - 2, y));
        }
        if open.is_empty() {
            if stack.len() > 1 {
                stack.pop();
                stack.pop();
                let last = *stack.last().unwrap();
                x = last.0;
                y = last.1;
                continue;
            }
            break;
        }
        let choice = if used < choices.len() { choices[used] } else { 0 };
        if used < choices.len() {
            used += 1;
        }
        let (wx, wy, nx, ny) = open[choice % open.len()];
        kinds[wy][wx] = '.';
        usable[ny][nx] = false;
        stack.push((wx, wy));
        stack.push((nx, ny));
        x = nx;
        y = ny;
        if stack.len() > best.len() {
            best = stack.clone();
        }
    }
    let (ex, ey) = *best.last().unwrap();
    kinds[ey][ex] = 'E';
    (kinds.iter().map(|row| row.iter().collect()).collect(), best)
}

#[test]
fn five_by_five_with_first_choices() {
    let (maze, solution) = create_maze_from_choices(5, 5, 0, &vec![]).unwrap();
    assert_eq!(
        picture(&maze),
        vec!["BBBBB", "BS#EB", "B.#.B", "B...B", "BBBBB"]
    );
    assert_eq!(
        solution,
        vec![(1, 1), (1, 2), (1, 3), (2, 3), (3, 3), (3, 2), (3, 1)]
    );
    check_generated(5, 5, &maze, &solution);
}

#[test]
fn five_by_five_with_second_choices() {
    let (maze, solution) = create_maze_from_choices(5, 5, 3, &vec![1, 0, 0]).unwrap();
    assert_eq!(
        picture(&maze),
        vec!["BBBBB", "B..EB", "B.##B", "B..SB", "BBBBB"]
    );
    assert_eq!(
        solution,
        vec![(3, 3), (2, 3), (1, 3), (1, 2), (1, 1), (2, 1), (3, 1)]
    );
}

#[test]
fn five_by_five_from_every_start() {
    for start_choice in 0..8 {
        for first in 0..4 {
            let choices = vec![first, 3, 1];
            let (maze, solution) = create_maze_from_choices(5, 5, start_choice, &choices).unwrap();
            check_generated(5, 5, &maze, &solution);
            let rooms = [(1, 1), (3, 1), (1, 3), (3, 3)];
            assert_eq!(solution[0], rooms[start_choice % 4]);
            assert_eq!(solution.len(), 7);
        }
    }
}

#[test]
fn the_library_carves_as_the_plain_walk_does() {
    let sizes = [(5, 5), (7, 5), (5, 9), (6, 6), (8, 11), (9, 9), (13, 7), (21, 15)];
    let mut seed: usize = 12345;
    for &(width, height) in sizes.iter() {
        for round in 0..6 {
            let mut choices = Vec::new();
            for _ in 0..(round * 17) {
                seed = seed.wrapping_mul(6364136223846793005).wrapping_add(1442695040888963407);
                choices.push((seed >> 33) % 12);
            }
            let start_choice = seed % 1000;
            let (maze, solution) = create_maze_from_choices(width, height, start_choice, &choices).unwrap();
            let (expected_maze, expected_solution) = plain_maze(width, height, start_choice, &choices);
            assert_eq!(picture(&maze), expected_maze);
            assert_eq!(solution, expected_solution);
            check_generated(width, height, &maze, &solution);
        }
    }
}

#[test]
fn same_choices_give_the_same_maze() {
    let choices = vec![3, 1, 4, 1, 5, 9, 2, 6, 5, 3, 5, 8, 9, 7, 9, 3, 2, 3, 8, 4, 6];
    let first = create_maze_from_choices(15, 11, 7, &choices).unwrap();
    let second = create_maze_from_choices(15, 11, 7, &choices).unwrap();
    assert_eq!(first.0, second.0);
    assert_eq!(first.1, second.1);
    let other = create_maze_from_choices(15, 11, 7, &vec![1, 1, 1, 1, 1, 1, 1]).unwrap();
    assert_ne!(picture(&first.0), picture(&other.0));
}

#[test]
fn random_mazes_are_in_order() {
    for &(width, height) in [(5, 5), (5, 7), (6, 8), (33, 33), (77, 21), (10, 41)].iter() {
        for _ in 0..5 {
            let (maze, solution) = create_random_maze(width, height).unwrap();
            check_generated(width, height, &maze, &solution);
        }
    }
}

#[test]
fn odd_and_even_sizes_leave_no_room_closed_in() {
    for width in 5..12 {
        for height in 5..12 {
            let (maze, solution) = create_random_maze(width, height).unwrap();
            let found = distances(&maze, solution[0]);
            for y in (1..height - 1).step_by(2) {
                for x in (1..width - 1).step_by(2) {
                    assert!(found[y][x].is_some());
                }
            }
        }
    }
}

#[test]
fn sizes_out_of_range_are_refused() {
    assert_eq!(create_random_maze(4, 9).err(), Some(MazeError::TooSmall));
    assert_eq!(create_random_maze(9, 4).err(), Some(MazeError::TooSmall));
    assert_eq!(create_random_maze(0, 0).err(), Some(MazeError::TooSmall));
    assert_eq!(create_random_maze(3, 3).err(), Some(MazeError::TooSmall));
    assert_eq!(create_random_maze(65436, 9).err(), Some(MazeError::TooLarge));
    assert_eq!(create_random_maze(9, 65436).err(), Some(MazeError::TooLarge));
    assert_eq!(create_random_maze(3, 65436).err(), Some(MazeError::TooSmall));
    assert_eq!(
        create_maze_from_choices(4, 4, 0, &vec![]).err(),
        Some(MazeError::TooSmall)
    );
    assert_eq!(
        create_maze_from_choices(5, 70000, 0, &vec![]).err(),
        Some(MazeError::TooLarge)
    );
}

#[test]
fn size_check_at_the_limits() {
    assert_eq!(MIN_MAZE_SIZE, 5);
    assert_eq!(MAX_MAZE_SIZE, 65435);
    assert_eq!(check_maze_size(5, 5), Ok(()));
    assert_eq!(check_maze_size(65435, 5), Ok(()));
    assert_eq!(check_maze_size(5, 65435), Ok(()));
    assert_eq!(check_maze_size(4, 5), Err(MazeError::TooSmall));
    assert_eq!(check_maze_size(5, 4), Err(MazeError::TooSmall));
    assert_eq!(check_maze_size(65436, 5), Err(MazeError::TooLarge));
    assert_eq!(check_maze_size(5, 65436), Err(MazeError::TooLarge));
    assert_eq!(check_maze_size(4, 65436), Err(MazeError::TooSmall));
}

#[test]
fn start_cell_counts_rooms_in_scan_order() {
    assert_eq!(start_cell(7, 5, 0), (1, 1));
    assert_eq!(start_cell(7, 5, 1), (3, 1));
    assert_eq!(start_cell(7, 5, 2), (5, 1));
    assert_eq!(start_cell(7, 5, 3), (1, 3));
    assert_eq!(start_cell(7, 5, 4), (3, 3));
    assert_eq!(start_cell(7, 5, 5), (5, 3));
    assert_eq!(start_cell(7, 5, 6), (1, 1));
    assert_eq!(start_cell(7, 5, 605), (5, 3));
    assert_eq!(start_cell(8, 6, 5), (5, 3));
    assert_eq!(start_cell(33, 33, 255), (31, 31));
}

#[test]
fn blank_maze_has_border_rooms_and_walls() {
    let maze = blank_maze(7, 5);
    assert_eq!(
        picture(&maze),
        vec!["BBBBBBB", "B.#.#.B", "B#####B", "B.#.#.B", "BBBBBBB"]
    );
    assert_eq!(maze[0][0].id, 1);
    assert_eq!(maze[0][6].id, 7);
    assert_eq!(maze[1][0].id, 8);
    assert_eq!(maze[4][6].id, 35);
    for row in &maze {
        for tile in row {
            assert_eq!(tile.can_be_used, tile.tile_type == TileType::Open);
            assert!(!tile.part_of_solution);
            assert_eq!((tile.pos_x, tile.pos_y), (0, 0));
        }
    }
}

#[test]
fn initialize_places_the_start() {
    let (maze, x, y) = initialize_maze_size(&7, &5, 4);
    assert_eq!((x, y), (3, 3));
    assert_eq!(
        picture(&maze),
        vec!["BBBBBBB", "B.#.#.B", "B#####B", "B.#S#.B", "BBBBBBB"]
    );
    assert!(!maze[3][3].can_be_used);
    assert!(maze[1][1].can_be_used);
    assert_eq!(maze[3][3].id, 25);
}

#[test]
fn directions_are_listed_in_order() {
    let (maze, x, y) = initialize_maze_size(&7, &7, 4);
    assert_eq!((x, y), (3, 3));
    assert_eq!(
        possible_directions(&3, &3, &maze),
        vec![(3, 4, 3, 5), (3, 2, 3, 1), (4, 3, 5, 3), (2, 3, 1, 3)]
    );
    assert_eq!(
        possible_directions(&1, &1, &maze),
        vec![(1, 2, 1, 3), (2, 1, 3, 1)]
    );
    assert_eq!(possible_directions(&5, &3, &maze), vec![(5, 4, 5, 5), (5, 2, 5, 1)]);
}

#[test]
fn a_choice_counts_the_directions_round() {
    let directions = vec![(3, 4, 3, 5), (3, 2, 3, 1), (4, 3, 5, 3), (2, 3, 1, 3)];
    for (choice, expected) in [(0, 0), (1, 1), (2, 2), (3, 3), (4, 0), (11, 3), (13, 1)] {
        let (mut maze, _, _) = initialize_maze_size(&7, &7, 4);
        let (wx, wy, nx, ny) = directions[expected];
        assert_eq!(
            get_new_direction(&3, &3, &directions, &mut maze, choice),
            (nx, ny, wx, wy)
        );
        assert_eq!(maze[wy][wx].tile_type, TileType::Open);
        assert_eq!(count(&maze, TileType::Open), 9);
    }
}

#[test]
fn no_direction_leaves_the_maze_as_it_is() {
    let (mut maze, _, _) = initialize_maze_size(&7, &7, 4);
    let before = maze.clone();
    assert_eq!(get_new_direction(&3, &3, &vec![], &mut maze, 5), (3, 3, 0, 0));
    assert_eq!(maze, before);
}

#[test]
fn one_direction_is_taken_whatever_the_choice() {
    let (mut maze, _, _) = initialize_maze_size(&7, &7, 4);
    assert_eq!(
        get_new_direction(&3, &3, &vec![(4, 3, 5, 3)], &mut maze, 7),
        (5, 3, 4, 3)
    );
    assert_eq!(maze[3][4].tile_type, TileType::Open);
}

#[test]
fn random_directions_open_the_chosen_wall() {
    let (mut maze, _, _) = initialize_maze_size(&7, &7, 4);
    assert_eq!(get_random_directions(&3, &3, &mut maze, 2), (5, 3, 4, 3));
    assert_eq!(maze[3][4].tile_type, TileType::Open);
    assert!(maze[3][5].can_be_used);
    let (mut corner, _, _) = initialize_maze_size(&5, &5, 0);
    corner[3][1].can_be_used = false;
    corner[1][3].can_be_used = false;
    let before = corner.clone();
    assert_eq!(get_random_directions(&1, &1, &mut corner, 2), (1, 1, 0, 0));
    assert_eq!(corner, before);
}

#[test]
fn the_walk_returns_to_the_start() {
    let (mut maze, mut x, mut y) = initialize_maze_size(&9, &7, 5);
    let start = (x, y);
    let mut solution = vec![start];
    set_maze_tile_for_game(&mut x, &mut y, &mut maze, &mut solution, &vec![2, 2, 1, 0, 3]);
    assert_eq!((x, y), start);
    assert_eq!(solution[0], start);
    assert_eq!(count(&maze, TileType::Exit), 0);
    assert_eq!(count(&maze, TileType::Start), 1);
    for row in &maze {
        for tile in row {
            assert!(!tile.can_be_used);
        }
    }
    let opened_walls = count(&maze, TileType::Open) - (4 * 3 - 1);
    assert_eq!(opened_walls, 4 * 3 - 1);
}

#[test]
fn copy_path_copies() {
    let path = vec![(1, 2), (3, 4), (5, 6)];
    assert_eq!(copy_path(&path), path);
    assert_eq!(copy_path(&vec![]), vec![]);
}

#[test]
fn drawn_choices_lie_below_the_range() {
    assert_eq!(CHOICE_RANGE, 12);
    let choices = draw_choices(500);
    assert_eq!(choices.len(), 500);
    assert!(choices.iter().all(|&choice| choice < 12));
    assert!(choices.iter().any(|&choice| choice != choices[0]));
    assert_eq!(draw_choices(0), vec![]);
}

#[test]
fn new_tiles_and_regions() {
    let open = MazeTile::new(7, TileType::Open);
    assert!(open.can_be_used);
    assert_eq!(open.id, 7);
    assert_eq!(open.tile_type, TileType::Open);
    assert!(!open.part_of_solution);
    assert!(MazeTile::new(1, TileType::Start).can_be_used);
    assert!(MazeTile::new(1, TileType::Exit).can_be_used);
    assert!(!MazeTile::new(1, TileType::Wall).can_be_used);
    assert!(!MazeTile::new(1, TileType::Border).can_be_used);
    let region = MazeRegion::new(3, -5, 9);
    assert_eq!((region.id, region.pos_x, region.pos_y), (3, -5, 9));
    assert!(region.region_maze_tiles.is_empty());
}
