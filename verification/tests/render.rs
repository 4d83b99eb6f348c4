use daedalus::render::paint;
use daedalus::tiles::{GridError, Tile, TileGrid, TileSprites};

fn two_by_two() -> TileGrid {
    TileGrid {
        tiles: vec![Tile::Floor, Tile::Wall, Tile::Wall, Tile::Floor],
        width: 2,
        height: 2,
        size: 2,
    }
}

fn blocks(floor: u32, wall: u32) -> TileSprites {
    TileSprites { wall: vec![wall; 4], floor: vec![floor; 4] }
}

#[test]
fn full_render_example() {
    let grid = two_by_two();
    let mut buffer = vec![9; 16];
    assert_eq!(grid.write_to(&blocks(1, 0), &mut buffer), Ok(()));
    assert_eq!(buffer, vec![1, 1, 0, 0, 1, 1, 0, 0, 0, 0, 1, 1, 0, 0, 1, 1]);
}

#[test]
fn incremental_render_example() {
    let grid = two_by_two();
    let mut buffer = vec![9; 16];
    assert_eq!(grid.write_to(&blocks(1, 0), &mut buffer), Ok(()));
    assert_eq!(grid.write_pos(&blocks(1, 2), (0, 1), &mut buffer), Ok(()));
    assert_eq!(buffer, vec![1, 1, 2, 2, 1, 1, 2, 2, 0, 0, 1, 1, 0, 0, 1, 1]);
}

#[test]
fn write_pos_copies_the_block_row_by_row() {
    let grid = TileGrid {
        tiles: vec![Tile::Wall, Tile::Wall, Tile::Wall, Tile::Wall, Tile::Floor, Tile::Wall],
        width: 3,
        height: 2,
        size: 2,
    };
    let sprites = TileSprites { wall: vec![5, 6, 7, 8], floor: vec![1, 2, 3, 4] };
    let mut buffer = vec![0; 24];
    assert_eq!(grid.write_pos(&sprites, (1, 1), &mut buffer), Ok(()));
    assert_eq!(
        buffer,
        vec![
            0, 0, 0, 0, 0, 0, //
            0, 0, 0, 0, 0, 0, //
            0, 0, 1, 2, 0, 0, //
            0, 0, 3, 4, 0, 0,
        ]
    );
    assert_eq!(grid.write_pos(&sprites, (0, 2), &mut buffer), Ok(()));
    assert_eq!(
        buffer,
        vec![
            0, 0, 0, 0, 5, 6, //
            0, 0, 0, 0, 7, 8, //
            0, 0, 1, 2, 0, 0, //
            0, 0, 3, 4, 0, 0,
        ]
    );
}

#[test]
fn write_to_renders_every_tile() {
    let grid = TileGrid {
        tiles: vec![Tile::Wall, Tile::Floor, Tile::Floor, Tile::Wall, Tile::Floor, Tile::Wall],
        width: 3,
        height: 2,
        size: 2,
    };
    let sprites = TileSprites { wall: vec![5, 6, 7, 8], floor: vec![1, 2, 3, 4] };
    let mut buffer = vec![0; 26];
    assert_eq!(grid.write_to(&sprites, &mut buffer), Ok(()));
    assert_eq!(
        buffer,
        vec![
            5, 6, 1, 2, 1, 2, //
            7, 8, 3, 4, 3, 4, //
            5, 6, 1, 2, 5, 6, //
            7, 8, 3, 4, 7, 8, //
            0, 0,
        ]
    );
}

#[test]
fn write_pos_off_the_grid() {
    let grid = two_by_two();
    let mut buffer = vec![9; 16];
    assert_eq!(grid.write_pos(&blocks(1, 0), (2, 0), &mut buffer), Err(GridError::OutOfBounds));
    assert_eq!(grid.write_pos(&blocks(1, 0), (0, 2), &mut buffer), Err(GridError::OutOfBounds));
    assert_eq!(buffer, vec![9; 16]);
}

#[test]
fn write_pos_buffer_too_small() {
    let grid = two_by_two();
    let mut buffer = vec![9; 15];
    assert_eq!(
        grid.write_pos(&blocks(1, 0), (0, 0), &mut buffer),
        Err(GridError::BufferTooSmall)
    );
    assert_eq!(buffer, vec![9; 15]);
}

#[test]
fn write_pos_off_the_grid_comes_first() {
    let grid = two_by_two();
    let mut buffer = vec![9; 3];
    assert_eq!(grid.write_pos(&blocks(1, 0), (5, 5), &mut buffer), Err(GridError::OutOfBounds));
}

#[test]
fn write_to_buffer_too_small() {
    let grid = two_by_two();
    let mut buffer = vec![9; 15];
    assert_eq!(grid.write_to(&blocks(1, 0), &mut buffer), Err(GridError::BufferTooSmall));
    assert_eq!(buffer, vec![9; 15]);
}

#[test]
fn write_to_pixels_beyond_a_machine_word() {
    let grid = TileGrid {
        tiles: vec![Tile::Floor, Tile::Wall, Tile::Wall, Tile::Floor],
        width: 2,
        height: 2,
        size: usize::MAX / 2,
    };
    assert!(!grid.fits(4));
    assert!(!grid.fits(usize::MAX));
}

#[test]
fn write_to_an_empty_grid() {
    let grid = TileGrid { tiles: Vec::new(), width: 0, height: 0, size: 2 };
    let mut buffer = vec![9; 3];
    assert_eq!(grid.write_to(&blocks(1, 0), &mut buffer), Ok(()));
    assert_eq!(buffer, vec![9; 3]);
    let mut nothing: Vec<u32> = Vec::new();
    assert_eq!(grid.write_to(&blocks(1, 0), &mut nothing), Ok(()));
}

#[test]
fn write_to_with_tiles_of_no_size() {
    let grid = TileGrid {
        tiles: vec![Tile::Floor, Tile::Wall, Tile::Wall, Tile::Floor],
        width: 2,
        height: 2,
        size: 0,
    };
    let sprites = TileSprites { wall: Vec::new(), floor: Vec::new() };
    let mut buffer = vec![9; 3];
    assert_eq!(grid.write_to(&sprites, &mut buffer), Ok(()));
    assert_eq!(grid.write_pos(&sprites, (1, 1), &mut buffer), Ok(()));
    assert_eq!(buffer, vec![9; 3]);
}

#[test]
fn fits_counts_the_pixels() {
    let grid = two_by_two();
    assert!(grid.fits(16));
    assert!(grid.fits(17));
    assert!(!grid.fits(15));
    assert!(!grid.fits(0));
}

#[test]
fn grid_get_reads_row_major() {
    let grid = TileGrid {
        tiles: vec![Tile::Wall, Tile::Floor, Tile::Wall, Tile::Wall, Tile::Wall, Tile::Floor],
        width: 3,
        height: 2,
        size: 2,
    };
    assert_eq!(grid.get((0, 1)), Ok(Tile::Floor));
    assert_eq!(grid.get((1, 2)), Ok(Tile::Floor));
    assert_eq!(grid.get((1, 0)), Ok(Tile::Wall));
    assert_eq!(grid.get((2, 0)), Err(GridError::OutOfBounds));
    assert_eq!(grid.get((0, 3)), Err(GridError::OutOfBounds));
    assert_eq!(grid.get((usize::MAX, usize::MAX)), Err(GridError::OutOfBounds));
}

#[test]
fn grid_set_writes_one_tile() {
    let mut grid = TileGrid { tiles: vec![Tile::Wall; 6], width: 3, height: 2, size: 2 };
    assert_eq!(grid.set((1, 1), Tile::Floor), Ok(()));
    assert_eq!(
        grid.tiles,
        vec![Tile::Wall, Tile::Wall, Tile::Wall, Tile::Wall, Tile::Floor, Tile::Wall]
    );
    assert_eq!(grid.set((1, 1), Tile::Wall), Ok(()));
    assert_eq!(grid.tiles, vec![Tile::Wall; 6]);
}

#[test]
fn grid_set_off_the_grid() {
    let mut grid = TileGrid { tiles: vec![Tile::Wall; 6], width: 3, height: 2, size: 2 };
    assert_eq!(grid.set((2, 0), Tile::Floor), Err(GridError::OutOfBounds));
    assert_eq!(grid.set((0, 3), Tile::Floor), Err(GridError::OutOfBounds));
    assert_eq!(grid.tiles, vec![Tile::Wall; 6]);
}

#[test]
fn sprites_block_by_kind() {
    let sprites = TileSprites { wall: vec![5, 6, 7, 8], floor: vec![1, 2, 3, 4] };
    assert_eq!(sprites.block(Tile::Wall), &vec![5, 6, 7, 8]);
    assert_eq!(sprites.block(Tile::Floor), &vec![1, 2, 3, 4]);
}

#[test]
fn paint_copies_every_pixel() {
    let mut buffer = vec![9; 12];
    paint(&mut buffer, 4, 2, (0, 1), &[0, 2, 3, 0], false);
    assert_eq!(buffer, vec![9, 9, 0, 2, 9, 9, 3, 0, 9, 9, 9, 9]);
}

#[test]
fn paint_keyed_leaves_out_transparent_pixels() {
    let mut buffer = vec![9; 12];
    paint(&mut buffer, 4, 2, (0, 1), &[0, 2, 3, 0], true);
    assert_eq!(buffer, vec![9, 9, 9, 2, 9, 9, 3, 9, 9, 9, 9, 9]);
}

#[test]
fn paint_in_a_wider_buffer() {
    let mut buffer = vec![0; 15];
    paint(&mut buffer, 5, 1, (2, 3), &[7], false);
    assert_eq!(buffer, vec![0, 0, 0, 0, 0, 0, 0, 0, 0, 0, 0, 0, 0, 7, 0]);
}
