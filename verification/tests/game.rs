use daedalus::game::{
    cells, first_floor, move_dir, pack_pixel, read_direction, valid_move, Direction, Game, Input,
    SpriteData,
};
use daedalus::tiles::{GridError, Tile, TileGrid, TileSprites};
use rand::{SeedableRng, StdRng};

fn rng_of(a: usize) -> StdRng {
    let seed: &[usize] = &[a, 5, 55];
    SeedableRng::from_seed(seed)
}

fn sprites(size: usize) -> SpriteData {
    SpriteData::from_pixels(vec![3; size * size], vec![1; size * size], vec![2; size * size])
}

/// F F W
/// W F W
/// W F F
fn small_game() -> Game {
    let f = Tile::Floor;
    let w = Tile::Wall;
    Game {
        player_pos: (0, 0),
        last_player_pos: None,
        world_bounds: (2, 2),
        grid: TileGrid { tiles: vec![f, f, w, w, f, w, w, f, f], width: 3, height: 3, size: 2 },
        sprite_data: SpriteData {
            player: vec![0, 7, 7, 0],
            tiles: TileSprites { wall: vec![2; 4], floor: vec![1; 4] },
        },
        sprite_size: 2,
        transition: 0,
    }
}

#[test]
fn pack_pixel_orders_the_channels() {
    assert_eq!(pack_pixel(0x11, 0x22, 0x33, 0x44), 0x44112233);
    assert_eq!(pack_pixel(0, 0, 0, 0), 0);
    assert_eq!(pack_pixel(0xff, 0xff, 0xff, 0xff), 0xffffffff);
    assert_eq!(pack_pixel(1, 0, 0, 0), 0x10000);
    assert_eq!(pack_pixel(0, 0, 0, 1), 0x1000000);
}

#[test]
fn sprite_data_is_sized() {
    assert!(sprites(2).is_sized(2));
    assert!(!sprites(2).is_sized(3));
    assert!(!sprites(2).is_sized(usize::MAX));
    let uneven = SpriteData::from_pixels(vec![3; 4], vec![1; 4], vec![2; 5]);
    assert!(!uneven.is_sized(2));
    assert_eq!(uneven.tiles.wall.len(), 5);
    assert_eq!(uneven.tiles.floor.len(), 4);
}

#[test]
fn read_direction_last_key_wins() {
    assert_eq!(read_direction(&[Input::Left, Input::Up]), Some(Direction::U));
    assert_eq!(read_direction(&[Input::Up, Input::Left]), Some(Direction::L));
    assert_eq!(read_direction(&[Input::Down, Input::Other]), Some(Direction::D));
    assert_eq!(read_direction(&[Input::Other, Input::Right, Input::Other]), Some(Direction::R));
}

#[test]
fn read_direction_without_a_direction() {
    assert_eq!(read_direction(&[]), None);
    assert_eq!(read_direction(&[Input::Other, Input::Other]), None);
}

#[test]
fn valid_move_within_bounds() {
    assert!(valid_move((1, 1), (0, 0), (2, 2), Direction::L));
    assert!(valid_move((1, 1), (0, 0), (2, 2), Direction::R));
    assert!(valid_move((1, 1), (0, 0), (2, 2), Direction::U));
    assert!(valid_move((1, 1), (0, 0), (2, 2), Direction::D));
}

#[test]
fn valid_move_at_the_bounds() {
    assert!(!valid_move((1, 0), (0, 0), (2, 2), Direction::L));
    assert!(!valid_move((1, 2), (0, 0), (2, 2), Direction::R));
    assert!(!valid_move((0, 1), (0, 0), (2, 2), Direction::U));
    assert!(!valid_move((2, 1), (0, 0), (2, 2), Direction::D));
    assert!(valid_move((2, 0), (0, 0), (2, 2), Direction::R));
    assert!(valid_move((0, 2), (0, 0), (2, 2), Direction::D));
}

#[test]
fn move_dir_steps_once() {
    assert_eq!(move_dir((4, 7), Direction::L), (4, 6));
    assert_eq!(move_dir((4, 7), Direction::R), (4, 8));
    assert_eq!(move_dir((4, 7), Direction::U), (3, 7));
    assert_eq!(move_dir((4, 7), Direction::D), (5, 7));
}

#[test]
fn cells_column_by_column() {
    assert_eq!(cells(2, 3), vec![(0, 0), (1, 0), (2, 0), (0, 1), (1, 1), (2, 1)]);
    assert_eq!(cells(0, 3), Vec::<(usize, usize)>::new());
    assert_eq!(cells(3, 0), Vec::<(usize, usize)>::new());
}

#[test]
fn first_floor_in_the_order_given() {
    let game = small_game();
    assert_eq!(first_floor(&game.grid, &vec![(0, 2), (1, 0), (2, 1), (0, 0)]), Some((2, 1)));
    assert_eq!(first_floor(&game.grid, &vec![(0, 2), (1, 0), (9, 9)]), None);
    assert_eq!(first_floor(&game.grid, &Vec::new()), None);
}

#[test]
fn game_new_puts_the_player_on_floor() {
    for seed in 0..5 {
        let game = Game::new(40, 30, sprites(32), &mut rng_of(seed)).unwrap();
        assert_eq!(game.grid.get(game.player_pos), Ok(Tile::Floor));
        assert_eq!(game.last_player_pos, None);
        assert_eq!(game.world_bounds, (29, 39));
        assert_eq!(game.sprite_size, 32);
        assert_eq!(game.transition, 0);
        assert_eq!((game.grid.width, game.grid.height, game.grid.size), (40, 30, 32));
        assert_eq!(game.sprite_data.player, vec![3; 1024]);
    }
}

#[test]
fn game_new_draws_the_start_at_random() {
    // unshuffled, the first floor tile in the list is always the corner
    let mut away = 0;
    for seed in 0..10 {
        let game = Game::new(10, 10, sprites(32), &mut rng_of(seed)).unwrap();
        if game.player_pos != (0, 0) {
            away += 1;
        }
    }
    assert!(away > 0);
}

#[test]
fn game_new_is_the_same_for_the_same_seed() {
    let first = Game::new(20, 20, sprites(32), &mut rng_of(3)).unwrap();
    let second = Game::new(20, 20, sprites(32), &mut rng_of(3)).unwrap();
    assert_eq!(first.grid.tiles, second.grid.tiles);
    assert_eq!(first.player_pos, second.player_pos);
}

#[test]
fn game_new_too_small() {
    assert_eq!(Game::new(4, 4, sprites(32), &mut rng_of(1)).err(), Some(GridError::TooSmall));
    assert_eq!(Game::new(4, 4, sprites(1), &mut rng_of(1)).err(), Some(GridError::TooSmall));
}

#[test]
fn game_new_too_large() {
    assert_eq!(
        Game::new(usize::MAX, 5, sprites(32), &mut rng_of(1)).err(),
        Some(GridError::TooLarge)
    );
}

#[test]
fn game_new_sprites_of_another_size() {
    assert_eq!(Game::new(10, 10, sprites(16), &mut rng_of(1)).err(), Some(GridError::SpriteSize));
}

#[test]
fn update_moves_onto_floor() {
    let mut game = small_game();
    game.update(&[Input::Right]);
    assert_eq!(game.player_pos, (0, 1));
    assert_eq!(game.last_player_pos, Some((0, 0)));
    assert_eq!(game.transition, 30);
}

#[test]
fn update_ignores_a_move_into_a_wall() {
    let mut game = small_game();
    game.update(&[Input::Down]);
    assert_eq!(game.player_pos, (0, 0));
    assert_eq!(game.last_player_pos, None);
    assert_eq!(game.transition, 0);
}

#[test]
fn update_ignores_a_move_out_of_the_world() {
    let mut game = small_game();
    game.update(&[Input::Up]);
    game.update(&[Input::Left]);
    assert_eq!(game.player_pos, (0, 0));
    assert_eq!(game.transition, 0);
    game.player_pos = (2, 2);
    game.update(&[Input::Down]);
    game.update(&[Input::Right]);
    assert_eq!(game.player_pos, (2, 2));
    assert_eq!(game.last_player_pos, None);
    assert_eq!(game.transition, 0);
}

#[test]
fn update_without_keys_changes_nothing() {
    let mut game = small_game();
    game.update(&[]);
    game.update(&[Input::Other]);
    assert_eq!(game.player_pos, (0, 0));
    assert_eq!(game.last_player_pos, None);
    assert_eq!(game.transition, 0);
}

#[test]
fn update_takes_the_last_direction() {
    let mut game = small_game();
    game.update(&[Input::Down, Input::Right]);
    assert_eq!(game.player_pos, (0, 1));
    let mut game = small_game();
    game.update(&[Input::Right, Input::Down]);
    assert_eq!(game.player_pos, (0, 0));
}

#[test]
fn update_is_throttled_after_a_move() {
    let mut game = small_game();
    game.update(&[Input::Right]);
    assert_eq!(game.player_pos, (0, 1));
    for tick in 1..30 {
        game.update(&[Input::Down]);
        assert_eq!(game.player_pos, (0, 1));
        assert_eq!(game.last_player_pos, Some((0, 0)));
        assert_eq!(game.transition, 30 - tick);
    }
    assert_eq!(game.transition, 1);
    // the 30th update leaves the game idle, and the next one moves again
    game.update(&[Input::Down]);
    assert_eq!(game.player_pos, (0, 1));
    assert_eq!(game.transition, 0);
    game.update(&[Input::Down]);
    assert_eq!(game.player_pos, (1, 1));
    assert_eq!(game.last_player_pos, Some((0, 1)));
    assert_eq!(game.transition, 30);
}

#[test]
fn frame_of_a_new_level() {
    let game = small_game();
    let mut buffer = vec![9; 36];
    assert_eq!(game.write_to(&mut buffer), Ok(()));
    assert_eq!(
        buffer,
        vec![
            1, 7, 1, 1, 2, 2, //
            7, 1, 1, 1, 2, 2, //
            2, 2, 1, 1, 2, 2, //
            2, 2, 1, 1, 2, 2, //
            2, 2, 1, 1, 1, 1, //
            2, 2, 1, 1, 1, 1,
        ]
    );
}

#[test]
fn frame_after_a_move() {
    let mut game = small_game();
    let mut buffer = vec![9; 36];
    assert_eq!(game.write_to(&mut buffer), Ok(()));
    game.update(&[Input::Right]);
    assert_eq!(game.write_to(&mut buffer), Ok(()));
    assert_eq!(
        buffer,
        vec![
            1, 1, 1, 7, 2, 2, //
            1, 1, 7, 1, 2, 2, //
            2, 2, 1, 1, 2, 2, //
            2, 2, 1, 1, 2, 2, //
            2, 2, 1, 1, 1, 1, //
            2, 2, 1, 1, 1, 1,
        ]
    );
}

#[test]
fn frame_after_a_move_paints_two_tiles_only() {
    let mut game = small_game();
    game.update(&[Input::Right]);
    let mut buffer = vec![9; 36];
    assert_eq!(game.write_to(&mut buffer), Ok(()));
    assert_eq!(
        buffer,
        vec![
            1, 1, 9, 7, 9, 9, //
            1, 1, 7, 9, 9, 9, //
            9, 9, 9, 9, 9, 9, //
            9, 9, 9, 9, 9, 9, //
            9, 9, 9, 9, 9, 9, //
            9, 9, 9, 9, 9, 9,
        ]
    );
}

#[test]
fn frame_buffer_too_small() {
    let game = small_game();
    let mut buffer = vec![9; 35];
    assert_eq!(game.write_to(&mut buffer), Err(GridError::BufferTooSmall));
    assert_eq!(buffer, vec![9; 35]);
}
