use amazingly_lost::maze_generator::{
    create_maze_from_choices, create_random_maze, create_random_open_walls, open_wall_beside,
};
use amazingly_lost::maze_tile::{MazeTile, TileType};
use amazingly_lost::open_walls::{DISTANCE_FROM_EXIT, NEXT_OPEN_WALL};

fn letter(tile: &MazeTile) -> char {
    match tile.tile_type {
        TileType::Start => 'S',
        TileType::Exit => 'E',
        TileType::Wall => '#',
        TileType::Border => 'B',
        TileType::Open => '.',
    }
}

fn letters(maze: &Vec<Vec<MazeTile>>) -> Vec<Vec<char>> {
    maze.iter().map(|row| row.iter().map(letter).collect()).collect()
}

/// The pass that opens extra walls, written out plainly, to hold the library
/// against.
fn plain_pass(maze: &mut Vec<Vec<char>>, path: &[(usize, usize)]) {
    let (exit_x, exit_y) = *path.last().unwrap();
    let mut next = 15;
    while next < path.len() {
        let (x, y) = path[next];
        if x.abs_diff(exit_x) <= 10 && y.abs_diff(exit_y) <= 10 {
            next += 1;
            continue;
        }
        if maze[y + 1][x] == '#' && maze[y + 1][x - 1] == '#' && maze[y + 1][x + 1] == '#' {
            maze[y + 1][x] = '.';
            if maze[y + 2][x] == '#' {
                maze[y + 2][x] = '.';
            }
        } else if maze[y - 1][x] == '#' && maze[y - 1][x - 1] == '#' && maze[y - 1][x + 1] == '#' {
            maze[y - 1][x] = '.';
            if maze[y - 2][x] == '#' {
                maze[y - 2][x] = '.';
            }
        } else if maze[y][x + 1] == '#' && maze[y - 1][x + 1] == '#' && maze[y + 1][x + 1] == '#' {
            maze[y][x + 1] = '.';
            if maze[y][x + 2] == '#' {
                maze[y][x + 2] = '.';
            }
        } else if maze[y][x - 1] == '#' && maze[y - 1][x - 1] == '#' && maze[y + 1][x - 1] == '#' {
            maze[y][x - 1] = '.';
            if maze[y][x - 2] == '#' {
                maze[y][x - 2] = '.';
            }
        } else {
            next += 1;
            continue;
        }
        next += 15;
    }
}

fn reachable(maze: &Vec<Vec<char>>, from: (usize, usize)) -> Vec<Vec<bool>> {
    let mut seen = vec![vec![false; maze[0].len()]; maze.len()];
    let mut stack = vec![from];
    seen[from.1][from.0] = true;
    while let Some((x, y)) = stack.pop() {
        for (nx, ny) in [(x + 1, y), (x - 1, y), (x, y + 1), (x, y - 1)] {
            if maze[ny][nx] != '#' && maze[ny][nx] != 'B' && !seen[ny][nx] {
                seen[ny][nx] = true;
                stack.push((nx, ny));
            }
        }
    }
    seen
}

#[test]
fn the_constants_of_the_pass() {
    assert_eq!(NEXT_OPEN_WALL, 15);
    assert_eq!(DISTANCE_FROM_EXIT, 10);
}

#[test]
fn a_short_solution_leaves_the_maze_as_it_is() {
    let (mut maze, solution) = create_maze_from_choices(5, 5, 0, &vec![]).unwrap();
    let before = maze.clone();
    create_random_open_walls(&mut maze, &solution);
    assert_eq!(maze, before);
    let (mut maze, solution) = create_maze_from_choices(7, 5, 1, &vec![2, 5, 7]).unwrap();
    assert!(solution.len() <= 15);
    let before = maze.clone();
    create_random_open_walls(&mut maze, &solution);
    assert_eq!(maze, before);
}

#[test]
fn cells_near_the_exit_are_passed_over() {
    // 21 by 5: ten rooms in a row, carved from the left end to the right end
    let (mut maze, solution) = create_maze_from_choices(21, 5, 0, &vec![1, 1, 1]).unwrap();
    let before = maze.clone();
    create_random_open_walls(&mut maze, &solution);
    let mut expected = letters(&before);
    plain_pass(&mut expected, &solution);
    assert_eq!(letters(&maze), expected);
    let (exit_x, exit_y) = *solution.last().unwrap();
    for y in 0..5usize {
        for x in 0..21usize {
            if maze[y][x] != before[y][x] {
                assert!(solution.iter().enumerate().any(|(i, &(px, py))| {
                    i >= 15
                        && px.abs_diff(x) + py.abs_diff(y) <= 2
                        && (px.abs_diff(exit_x) > 10 || py.abs_diff(exit_y) > 10)
                }));
            }
        }
    }
}

#[test]
fn a_zigzag_between_two_rows_offers_no_wall_to_open() {
    // 45 by 5: the walk zigzags between the two rows of rooms, so every wall
    // beside the solution has an open cell or the border on one side
    let (mut maze, solution) = create_maze_from_choices(45, 5, 0, &vec![]).unwrap();
    assert_eq!(solution.len(), 87);
    let before = maze.clone();
    create_random_open_walls(&mut maze, &solution);
    assert_eq!(maze, before);
}

#[test]
fn the_library_opens_walls_as_the_plain_pass_does() {
    let mut seed: usize = 99;
    let mut mazes_changed = 0;
    for &(width, height) in [(33, 33), (21, 45), (60, 18), (77, 77)].iter() {
        for round in 0..5 {
            let mut choices = Vec::new();
            for _ in 0..(400 * round) {
                seed = seed.wrapping_mul(6364136223846793005).wrapping_add(1442695040888963407);
                choices.push((seed >> 33) % 12);
            }
            let (mut maze, solution) = create_maze_from_choices(width, height, seed % 97, &choices).unwrap();
            let before = maze.clone();
            let mut expected = letters(&maze);
            plain_pass(&mut expected, &solution);
            create_random_open_walls(&mut maze, &solution);
            assert_eq!(letters(&maze), expected);
            if maze != before {
                mazes_changed += 1;
            }
            for y in 0..height {
                for x in 0..width {
                    let was = &before[y][x];
                    let is = &maze[y][x];
                    if was != is {
                        assert_eq!(was.tile_type, TileType::Wall);
                        assert_eq!(is.tile_type, TileType::Open);
                        assert_eq!(is.id, was.id);
                        assert_eq!(is.can_be_used, was.can_be_used);
                        assert!(x > 0 && y > 0 && x < width - 1 && y < height - 1);
                    }
                    if was.tile_type == TileType::Border {
                        assert_eq!(is.tile_type, TileType::Border);
                    }
                }
            }
        }
    }
    assert!(mazes_changed >= 10);
}

#[test]
fn the_maze_stays_connected_after_the_pass() {
    for _ in 0..10 {
        let (mut maze, solution) = create_random_maze(55, 41).unwrap();
        create_random_open_walls(&mut maze, &solution);
        let picture = letters(&maze);
        let seen = reachable(&picture, solution[0]);
        let mut starts = 0;
        let mut exits = 0;
        for y in 0..41 {
            for x in 0..55 {
                let open = picture[y][x] != '#' && picture[y][x] != 'B';
                assert_eq!(seen[y][x], open);
                if picture[y][x] == 'S' {
                    starts += 1;
                }
                if picture[y][x] == 'E' {
                    exits += 1;
                }
            }
        }
        assert_eq!((starts, exits), (1, 1));
        let (ex, ey) = *solution.last().unwrap();
        assert_eq!(picture[ey][ex], 'E');
        assert_eq!(picture[solution[0].1][solution[0].0], 'S');
    }
}

#[test]
fn a_wall_between_standing_walls_is_opened_with_the_wall_behind_it() {
    // the blank corner of a fresh 7 by 7 maze: the start lies on (5, 5)
    let (maze, _) = create_maze_from_choices(7, 7, 8, &vec![]).unwrap();
    let mut fresh = maze.clone();
    for row in fresh.iter_mut() {
        for tile in row.iter_mut() {
            if tile.tile_type == TileType::Open {
                let x = (tile.id - 1) % 7;
                let y = (tile.id - 1) / 7;
                if x % 2 == 0 || y % 2 == 0 {
                    tile.tile_type = TileType::Wall;
                }
            }
        }
    }
    // from the wall cell (2, 1) towards rising y: the pillar (2, 2) stands between
    // the standing walls (1, 2) and (3, 2), and the wall (2, 3) stands behind it
    let mut maze = fresh.clone();
    assert!(open_wall_beside(&mut maze, 2, 1, 2, 2));
    assert_eq!(maze[2][2].tile_type, TileType::Open);
    assert_eq!(maze[3][2].tile_type, TileType::Open);
    let changed = maze
        .iter()
        .flatten()
        .zip(fresh.iter().flatten())
        .filter(|(a, b)| a != b)
        .count();
    assert_eq!(changed, 2);
    // from the room (1, 1) towards rising y: the wall (1, 2) has the border on one
    // side, so it stays
    let mut maze = fresh.clone();
    assert!(!open_wall_beside(&mut maze, 1, 1, 1, 2));
    assert_eq!(maze, fresh);
    // from the room (3, 3) towards falling x: the wall (2, 3) stands between the
    // pillars (2, 2) and (2, 4); the room (1, 3) behind it is no wall
    let mut maze = fresh.clone();
    assert!(open_wall_beside(&mut maze, 3, 3, 2, 3));
    assert_eq!(maze[3][2].tile_type, TileType::Open);
    assert_eq!(maze[3][1].tile_type, fresh[3][1].tile_type);
    // with one flank open the wall stays
    let mut maze = fresh.clone();
    maze[2][2].tile_type = TileType::Open;
    let before = maze.clone();
    assert!(!open_wall_beside(&mut maze, 3, 3, 2, 3));
    assert_eq!(maze, before);
    // towards the border nothing is opened
    let mut maze = fresh.clone();
    assert!(!open_wall_beside(&mut maze, 5, 1, 5, 0));
    assert!(!open_wall_beside(&mut maze, 5, 1, 6, 1));
    assert_eq!(maze, fresh);
}

#[test]
fn a_wall_is_opened_beside_a_straight_corridor() {
    // 29 by 5: a corridor along row 1 from the start at (1, 1) to the exit at
    // (27, 1), with standing walls in rows 2 and 3
    let mut maze: Vec<Vec<MazeTile>> = (0..5usize)
        .map(|y| {
            (0..29usize)
                .map(|x| {
                    let kind = if x == 0 || y == 0 || x == 28 || y == 4 {
                        TileType::Border
                    } else if y != 1 {
                        TileType::Wall
                    } else if x == 1 {
                        TileType::Start
                    } else if x == 27 {
                        TileType::Exit
                    } else {
                        TileType::Open
                    };
                    MazeTile::new(29 * y + x + 1, kind)
                })
                .collect()
        })
        .collect();
    let solution: Vec<(usize, usize)> = (1..=27).map(|x| (x, 1)).collect();
    let before = maze.clone();
    create_random_open_walls(&mut maze, &solution);
    // place 15 of the solution is (16, 1), eleven columns from the exit: the wall
    // above it is opened, and the wall behind that one
    assert_eq!(maze[2][16].tile_type, TileType::Open);
    assert_eq!(maze[3][16].tile_type, TileType::Open);
    for y in 0..5 {
        for x in 0..29 {
            if (x, y) != (16, 2) && (x, y) != (16, 3) {
                assert_eq!(maze[y][x], before[y][x]);
            } else {
                assert_eq!(maze[y][x].id, before[y][x].id);
                assert_eq!(maze[y][x].can_be_used, before[y][x].can_be_used);
            }
        }
    }
}

#[test]
fn a_corridor_near_the_exit_is_left_as_it_is() {
    // 28 by 5: place 15 of the solution is (16, 1), ten columns from the exit at
    // (26, 1), and the places after it lie nearer still
    let mut maze: Vec<Vec<MazeTile>> = (0..5usize)
        .map(|y| {
            (0..28usize)
                .map(|x| {
                    let kind = if x == 0 || y == 0 || x == 27 || y == 4 {
                        TileType::Border
                    } else if y != 1 {
                        TileType::Wall
                    } else {
                        TileType::Open
                    };
                    MazeTile::new(28 * y + x + 1, kind)
                })
                .collect()
        })
        .collect();
    let solution: Vec<(usize, usize)> = (1..=26).map(|x| (x, 1)).collect();
    let before = maze.clone();
    create_random_open_walls(&mut maze, &solution);
    assert_eq!(maze, before);
}
