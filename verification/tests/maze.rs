use daedalus::maze::{adjacent, maze_step, random_maze, valid_tiles};
use daedalus::tiles::{GridError, Tile};
use rand::{SeedableRng, StdRng};

fn seeded(a: usize) -> StdRng {
    let seed: &[usize] = &[a, 17, 4, 2026];
    SeedableRng::from_seed(seed)
}

fn floors(tiles: &[Tile]) -> usize {
    tiles.iter().filter(|t| **t == Tile::Floor).count()
}

/// The number of floor tiles that a walk over floor tiles reaches from the
/// corner.
fn reached(tiles: &[Tile], width: usize, height: usize) -> usize {
    let mut seen = vec![false; tiles.len()];
    let mut todo = vec![(0usize, 0usize)];
    seen[0] = true;
    let mut count = 0;
    while let Some(p) = todo.pop() {
        count += 1;
        for q in adjacent(p, (height, width)) {
            let k = q.0 * width + q.1;
            if tiles[k] == Tile::Floor && !seen[k] {
                seen[k] = true;
                todo.push(q);
            }
        }
    }
    count
}

/// The number of pairs of floor tiles that touch.
fn floor_edges(tiles: &[Tile], width: usize, height: usize) -> usize {
    let mut edges = 0;
    for r in 0..height {
        for c in 0..width {
            if tiles[r * width + c] != Tile::Floor {
                continue;
            }
            if c + 1 < width && tiles[r * width + c + 1] == Tile::Floor {
                edges += 1;
            }
            if r + 1 < height && tiles[(r + 1) * width + c] == Tile::Floor {
                edges += 1;
            }
        }
    }
    edges
}

#[test]
fn adjacent_in_the_middle() {
    assert_eq!(adjacent((2, 3), (5, 6)), vec![(1, 3), (2, 2), (3, 3), (2, 4)]);
}

#[test]
fn adjacent_in_the_corners() {
    assert_eq!(adjacent((0, 0), (5, 6)), vec![(1, 0), (0, 1)]);
    assert_eq!(adjacent((4, 5), (5, 6)), vec![(3, 5), (4, 4)]);
}

#[test]
fn adjacent_in_a_single_cell() {
    assert_eq!(adjacent((0, 0), (1, 1)), Vec::<(usize, usize)>::new());
}

#[test]
fn adjacent_off_the_grid() {
    assert_eq!(adjacent((0, 0), (0, 0)), Vec::<(usize, usize)>::new());
    assert_eq!(adjacent((usize::MAX, 0), (3, 3)), vec![(usize::MAX - 1, 0), (usize::MAX, 1)]);
}

#[test]
fn valid_tiles_from_the_start() {
    let mut grid = vec![Tile::Wall; 9];
    grid[0] = Tile::Floor;
    assert_eq!(valid_tiles((0, 0), (3, 3), &grid), vec![(1, 0), (0, 1)]);
}

#[test]
fn valid_tiles_leaves_out_floor() {
    // F F W
    // W W W
    // W W W
    let mut grid = vec![Tile::Wall; 9];
    grid[0] = Tile::Floor;
    grid[1] = Tile::Floor;
    assert_eq!(valid_tiles((0, 1), (3, 3), &grid), vec![(1, 1), (0, 2)]);
}

#[test]
fn valid_tiles_does_not_join_corridors() {
    // F F F
    // W W F
    // W W W
    let mut grid = vec![Tile::Wall; 9];
    grid[0] = Tile::Floor;
    grid[1] = Tile::Floor;
    grid[2] = Tile::Floor;
    grid[5] = Tile::Floor;
    // (1, 1) touches (0, 1), (2, 1) touches nothing but walls and (2, 2)
    assert_eq!(valid_tiles((1, 2), (3, 3), &grid), vec![(2, 2)]);
    assert_eq!(valid_tiles((0, 0), (3, 3), &grid), vec![(1, 0)]);
}

#[test]
fn maze_step_carves_and_pushes() {
    let mut tiles = vec![Tile::Wall; 6];
    tiles[0] = Tile::Floor;
    let mut stack = vec![(0, 0)];
    assert_eq!(maze_step(&mut tiles, &mut stack, (2, 3), Some((1, 0))), Ok(()));
    assert_eq!(
        tiles,
        vec![Tile::Floor, Tile::Wall, Tile::Wall, Tile::Floor, Tile::Wall, Tile::Wall]
    );
    assert_eq!(stack, vec![(0, 0), (1, 0)]);
}

#[test]
fn maze_step_backs_up() {
    let mut tiles = vec![Tile::Floor, Tile::Floor, Tile::Wall, Tile::Wall];
    let mut stack = vec![(0, 0), (0, 1)];
    assert_eq!(maze_step(&mut tiles, &mut stack, (2, 2), None), Ok(()));
    assert_eq!(tiles, vec![Tile::Floor, Tile::Floor, Tile::Wall, Tile::Wall]);
    assert_eq!(stack, vec![(0, 0)]);
    assert_eq!(maze_step(&mut tiles, &mut stack, (2, 2), None), Ok(()));
    assert_eq!(maze_step(&mut tiles, &mut stack, (2, 2), None), Ok(()));
    assert_eq!(stack, Vec::<(usize, usize)>::new());
}

#[test]
fn maze_step_refuses_a_cell_off_the_grid() {
    let mut tiles = vec![Tile::Wall; 4];
    let mut stack = vec![(0, 0)];
    assert_eq!(
        maze_step(&mut tiles, &mut stack, (2, 2), Some((2, 0))),
        Err(GridError::OutOfBounds)
    );
    assert_eq!(
        maze_step(&mut tiles, &mut stack, (2, 2), Some((0, 2))),
        Err(GridError::OutOfBounds)
    );
    assert_eq!(tiles, vec![Tile::Wall; 4]);
    assert_eq!(stack, vec![(0, 0)]);
}

#[test]
fn maze_too_small() {
    let mut rng = seeded(1);
    assert_eq!(random_maze(1, 8, &mut rng), Err(GridError::TooSmall));
    assert_eq!(random_maze(8, 1, &mut rng), Err(GridError::TooSmall));
    assert_eq!(random_maze(0, 0, &mut rng), Err(GridError::TooSmall));
}

#[test]
fn maze_too_large() {
    let mut rng = seeded(1);
    assert_eq!(random_maze(usize::MAX, 2, &mut rng), Err(GridError::TooLarge));
}

#[test]
fn maze_of_the_least_size() {
    let mut rng = seeded(3);
    let tiles = random_maze(2, 2, &mut rng).unwrap();
    assert_eq!(tiles.len(), 4);
    assert_eq!(tiles[0], Tile::Floor);
    // a corridor of three cells: the fourth would close a loop
    assert_eq!(floors(&tiles), 3);
    assert_eq!(tiles[3], Tile::Floor);
}

#[test]
fn maze_is_connected() {
    for seed in 0..20 {
        let mut rng = seeded(seed);
        let (width, height) = (8 + seed % 5, 8 + seed % 3);
        let tiles = random_maze(width, height, &mut rng).unwrap();
        assert_eq!(tiles.len(), width * height);
        assert_eq!(tiles[0], Tile::Floor);
        assert_eq!(reached(&tiles, width, height), floors(&tiles));
    }
}

#[test]
fn maze_corridors_never_merge() {
    for seed in 0..20 {
        let mut rng = seeded(seed);
        let (width, height) = (9 + seed % 4, 8 + seed % 6);
        let tiles = random_maze(width, height, &mut rng).unwrap();
        // a connected set of cells without a loop has one touching pair less
        // than it has cells
        assert_eq!(floor_edges(&tiles, width, height) + 1, floors(&tiles));
        for r in 0..height - 1 {
            for c in 0..width - 1 {
                let hall = tiles[r * width + c] == Tile::Floor
                    && tiles[r * width + c + 1] == Tile::Floor
                    && tiles[(r + 1) * width + c] == Tile::Floor
                    && tiles[(r + 1) * width + c + 1] == Tile::Floor;
                assert!(!hall);
            }
        }
    }
}

#[test]
fn maze_has_no_room_left_for_a_corridor() {
    let mut rng = seeded(5);
    let (width, height) = (12, 10);
    let tiles = random_maze(width, height, &mut rng).unwrap();
    for r in 0..height {
        for c in 0..width {
            if tiles[r * width + c] == Tile::Floor {
                assert_eq!(valid_tiles((r, c), (height, width), &tiles), vec![]);
            }
        }
    }
}

#[test]
fn maze_is_the_same_for_the_same_seed() {
    let first = random_maze(16, 12, &mut seeded(42)).unwrap();
    let second = random_maze(16, 12, &mut seeded(42)).unwrap();
    assert_eq!(first, second);
}

#[test]
fn maze_differs_between_seeds() {
    let mut seen: Vec<Vec<Tile>> = Vec::new();
    for seed in 0..8 {
        let tiles = random_maze(16, 12, &mut seeded(seed)).unwrap();
        if !seen.contains(&tiles) {
            seen.push(tiles);
        }
    }
    assert!(seen.len() > 1);
}
