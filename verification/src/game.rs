use crate::render::{paint, spec_paint};
use crate::rng::shuffle;
use crate::tiles::{
    in_bounds, is_level, lemma_level_start, level_error, GridError, Tile, TileGrid,
    TileSprites, TILE_SIZE,
};
use rand::StdRng;
use vstd::prelude::*;

verus! {

/// The number of updates after a move during which no input is taken.
pub const COOLDOWN: i32 = 30;

/// Packs the channels of a pixel into one value: alpha in the highest byte,
/// then red, green and blue.
pub fn pack_pixel(red: u8, green: u8, blue: u8, alpha: u8) -> (p: u32)
    ensures
        p == alpha * 0x100_0000 + red * 0x1_0000 + green * 0x100 + blue,
{
    let mut r: u32 = alpha as u32;
    r = (r << 8) | (red as u32);
    r = (r << 8) | (green as u32);
    r = (r << 8) | (blue as u32);
    assert(((((alpha as u32) << 8 | (red as u32)) << 8 | (green as u32)) << 8 | (blue as u32))
        == (alpha as u32) * 0x100_0000 + (red as u32) * 0x1_0000 + (green as u32) * 0x100 + (
    blue as u32)) by (bit_vector);
    r
}

/// Contains all the necessary info for sprites in the game.
pub struct SpriteData {
    pub player: Vec<u32>,
    pub tiles: TileSprites,
}

impl SpriteData {
    /// Every sprite holds `size` rows of `size` pixels.
    pub open spec fn wf(self, size: usize) -> bool {
        self.player@.len() == size * size && self.tiles.wf(size)
    }

    /// Puts the pixels of the three sprites together.
    pub fn from_pixels(player: Vec<u32>, floortile: Vec<u32>, walltile: Vec<u32>) -> (s: SpriteData)
        ensures
            s.player == player,
            s.tiles.floor == floortile,
            s.tiles.wall == walltile,
    {
        SpriteData { player: player, tiles: TileSprites { wall: walltile, floor: floortile } }
    }

    /// Tells whether every sprite holds `size` rows of `size` pixels.
    pub fn is_sized(&self, size: usize) -> (ok: bool)
        ensures
            ok == self.wf(size),
    {
        let held = self.player.len();
        match size.checked_mul(size) {
            Some(n) => held == n && self.tiles.wall.len() == n && self.tiles.floor.len() == n,
            None => false,
        }
    }
}

/// A direction to move in: up, down, left or right.
#[derive(Clone, Copy, Debug, PartialEq, Eq, Structural)]
pub enum Direction {
    U,
    D,
    L,
    R,
}

/// A key as far as the game tells keys apart.
#[derive(Clone, Copy, Debug, PartialEq, Eq, Structural)]
pub enum Input {
    Left,
    Right,
    Down,
    Up,
    Other,
}

/// The direction that a key asks for, if any.
pub open spec fn direction_of(key: Input) -> Option<Direction> {
    match key {
        Input::Left => Some(Direction::L),
        Input::Right => Some(Direction::R),
        Input::Down => Some(Direction::D),
        Input::Up => Some(Direction::U),
        Input::Other => None,
    }
}

/// The direction that the keys ask for: that of the last key that asks for
/// one.
pub open spec fn last_direction(keys: Seq<Input>) -> Option<Direction>
    decreases keys.len(),
{
    if keys.len() == 0 {
        None
    } else {
        match direction_of(keys.last()) {
            Some(d) => Some(d),
            None => last_direction(keys.drop_last()),
        }
    }
}

/// Finds the direction that the keys ask for.
pub fn read_direction(keys: &[Input]) -> (dir: Option<Direction>)
    ensures
        dir == last_direction(keys@),
{
    let mut dir: Option<Direction> = None;
    let mut i: usize = 0;
    while i < keys.len()
        invariant
            0 <= i <= keys@.len(),
            dir == last_direction(keys@.take(i as int)),
        decreases keys@.len() - i,
    {
        proof {
            assert(keys@.take(i + 1).drop_last() =~= keys@.take(i as int));
        }
        match keys[i] {
            Input::Left => {
                dir = Some(Direction::L);
            },
            Input::Right => {
                dir = Some(Direction::R);
            },
            Input::Down => {
                dir = Some(Direction::D);
            },
            Input::Up => {
                dir = Some(Direction::U);
            },
            Input::Other => {},
        }
        i += 1;
    }
    assert(keys@.take(i as int) =~= keys@);
    dir
}

/// Whether a step from `pos` in direction `dir` stays within `min` and `max`.
pub open spec fn spec_valid_move(
    pos: (usize, usize),
    min: (usize, usize),
    max: (usize, usize),
    dir: Direction,
) -> bool {
    match dir {
        Direction::L => pos.1 > min.1,
        Direction::R => pos.1 < max.1,
        Direction::U => pos.0 > min.0,
        Direction::D => pos.0 < max.0,
    }
}

/// The position one step from `pos` in direction `dir`.
pub open spec fn spec_move_dir(pos: (usize, usize), dir: Direction) -> (usize, usize) {
    match dir {
        Direction::L => (pos.0, (pos.1 - 1) as usize),
        Direction::R => (pos.0, (pos.1 + 1) as usize),
        Direction::U => ((pos.0 - 1) as usize, pos.1),
        Direction::D => ((pos.0 + 1) as usize, pos.1),
    }
}

/// Checks if a position can move in a direction given min and max bounds
pub fn valid_move(pos: (usize, usize), min: (usize, usize), max: (usize, usize), dir: Direction)
    -> (ok: bool)
    ensures
        ok == spec_valid_move(pos, min, max, dir),
{
    match dir {
        Direction::L => pos.1 > min.1,
        Direction::R => pos.1 < max.1,
        Direction::U => pos.0 > min.0,
        Direction::D => pos.0 < max.0,
    }
}

/// Moves a position by one step in a direction that leads to a position.
pub fn move_dir(pos: (usize, usize), dir: Direction) -> (moved: (usize, usize))
    requires
        spec_valid_move(pos, (0, 0), (usize::MAX, usize::MAX), dir),
    ensures
        moved == spec_move_dir(pos, dir),
{
    let mut pos = pos;
    match dir {
        Direction::L => pos.1 -= 1,
        Direction::R => pos.1 += 1,
        Direction::U => pos.0 -= 1,
        Direction::D => pos.0 += 1,
    }
    pos
}

/// Contains all necessary information for the Game State
pub struct Game {
    /// The current position of the player, row column
    pub player_pos: (usize, usize),
    /// The last player pos, used to write over movement
    /// Also indicates whether a new dungeon has been generated,
    /// None is so
    pub last_player_pos: Option<(usize, usize)>,
    /// The bounds (rows, columns) of the world.
    /// All entities must always be contained in this.
    pub world_bounds: (usize, usize),
    /// The grid containing all background tiles
    pub grid: TileGrid,
    /// Mapping each sprite to sprite information
    pub sprite_data: SpriteData,
    /// The size for every sprite
    pub sprite_size: usize,
    /// Used for delaying updates while animations transitions
    pub transition: i32,
}

/// Whether `p` is a floor tile of the grid.
pub open spec fn is_floor_at(grid: TileGrid, p: (usize, usize)) -> bool {
    in_bounds(p, grid.bounds()) && grid.tile(p) == Tile::Floor
}

/// The cells of a grid, column by column.
pub open spec fn spec_cells(width: usize, height: usize) -> Seq<(usize, usize)> {
    Seq::new(
        (width * height) as nat,
        |k: int| ((k % (height as int)) as usize, (k / (height as int)) as usize),
    )
}

/// Lists the cells of a grid, column by column.
pub fn cells(width: usize, height: usize) -> (v: Vec<(usize, usize)>)
    requires
        width * height <= usize::MAX,
    ensures
        v@ == spec_cells(width, height),
{
    let mut v: Vec<(usize, usize)> = Vec::new();
    let ghost all = spec_cells(width, height);
    let mut w: usize = 0;
    proof {
        assert(0 * (height as int) == 0);
        assert(v@ =~= all.take(0));
    }
    while w < width
        invariant
            0 <= w <= width,
            all == spec_cells(width, height),
            v@.len() == w * height,
            v@ == all.take(v@.len() as int),
        decreases width - w,
    {
        let mut h: usize = 0;
        while h < height
            invariant
                0 <= w < width,
                0 <= h <= height,
                all == spec_cells(width, height),
                v@.len() == w * height + h,
                v@ == all.take(v@.len() as int),
            decreases height - h,
        {
            proof {
                let k = v@.len() as int;
                crate::tiles::lemma_cell_split(w as int, h as int, height as int);
                assert(w * height + height <= width * height) by (nonlinear_arith)
                    requires
                        w + 1 <= width,
                        height >= 0,
                ;
                assert(all[k] == (h, w));
                assert(all.take(k + 1) =~= all.take(k).push((h, w)));
            }
            v.push((h, w));
            h += 1;
        }
        proof {
            assert(w * height + height == (w + 1) * height) by (nonlinear_arith);
        }
        w += 1;
    }
    proof {
        assert(all.take(all.len() as int) =~= all);
    }
    v
}

/// Finds the first of the positions that is a floor tile of the grid.
pub fn first_floor(grid: &TileGrid, positions: &Vec<(usize, usize)>) -> (found: Option<
    (usize, usize),
>)
    requires
        grid.wf(),
    ensures
        match found {
            Some(p) => exists|i: int|
                0 <= i < positions@.len() && positions@[i] == p && is_floor_at(*grid, p)
                    && forall|j: int| 0 <= j < i ==> !is_floor_at(*grid, #[trigger] positions@[j]),
            None => forall|j: int|
                0 <= j < positions@.len() ==> !is_floor_at(*grid, #[trigger] positions@[j]),
        },
{
    let mut i: usize = 0;
    while i < positions.len()
        invariant
            0 <= i <= positions@.len(),
            grid.wf(),
            forall|j: int| 0 <= j < i ==> !is_floor_at(*grid, #[trigger] positions@[j]),
        decreases positions@.len() - i,
    {
        let p = positions[i];
        match grid.get(p) {
            Ok(Tile::Floor) => {
                return Some(p);
            },
            _ => {},
        }
        i += 1;
    }
    None
}

impl Game {
    /// The player stands on a floor tile of a grid with at least one cell,
    /// and the sprites have the size of the grid's tiles.
    pub open spec fn wf(self) -> bool {
        &&& self.grid.wf()
        &&& self.grid.width > 0
        &&& self.grid.height > 0
        &&& self.sprite_size == self.grid.size
        &&& self.sprite_data.wf(self.sprite_size)
        &&& self.world_bounds == ((self.grid.height - 1) as usize, (self.grid.width - 1) as usize)
        &&& is_floor_at(self.grid, self.player_pos)
        &&& self.last_player_pos is Some ==> in_bounds(
            self.last_player_pos.unwrap(),
            self.grid.bounds(),
        )
    }

    /// Why no game can be made on a grid of the given size with the given
    /// sprites, if anything.
    pub open spec fn new_error(width: usize, height: usize, sprites: SpriteData) -> Option<
        GridError,
    > {
        if level_error(width, height) is Some {
            level_error(width, height)
        } else if !sprites.wf(TILE_SIZE) {
            Some(GridError::SpriteSize)
        } else {
            None
        }
    }

    /// Generates a level and puts the player on one of its floor tiles,
    /// chosen at random.
    pub fn new(width: usize, height: usize, sprites: SpriteData, rng: &mut StdRng) -> (r: Result<
        Game,
        GridError,
    >)
        ensures
            match r {
                Ok(game) => {
                    &&& Game::new_error(width, height, sprites) is None
                    &&& game.wf()
                    &&& game.grid.width == width
                    &&& game.grid.height == height
                    &&& game.sprite_size == TILE_SIZE
                    &&& is_level(game.grid.tiles@, width, height)
                    &&& game.sprite_data == sprites
                    &&& game.last_player_pos is None
                    &&& game.transition == 0
                },
                Err(e) => Game::new_error(width, height, sprites) == Some(e),
            },
    {
        let grid = match TileGrid::random(width, height, rng) {
            Ok(grid) => grid,
            Err(e) => {
                return Err(e);
            },
        };
        if !sprites.is_sized(TILE_SIZE) {
            return Err(GridError::SpriteSize);
        }
        let mut positions = cells(width, height);
        let ghost start = (0usize, 0usize);
        proof {
            lemma_level_start(grid.tiles@, width, height);
            assert(positions@[0] == start);
            assert(positions@.contains(start));
            assert(start.0 * width == 0) by (nonlinear_arith)
                requires
                    start.0 == 0,
            ;
            assert(is_floor_at(grid, start));
            positions@.to_multiset_ensures();
            assert(positions@.to_multiset().count(start) > 0);
        }
        shuffle(rng, &mut positions);
        proof {
            positions@.to_multiset_ensures();
            assert(positions@.to_multiset().count(start) > 0);
            assert(positions@.contains(start));
            let i = choose|i: int| 0 <= i < positions@.len() && positions@[i] == start;
            assert(is_floor_at(grid, positions@[i]));
        }
        // the map will always generate floor tiles
        let player_pos = first_floor(&grid, &positions).unwrap();
        Ok(
            Game {
                player_pos: player_pos,
                last_player_pos: None,
                world_bounds: (height - 1, width - 1),
                grid: grid,
                sprite_data: sprites,
                sprite_size: TILE_SIZE,
                transition: 0,
            },
        )
    }

    /// Whether the player may step in direction `dir`: the step stays in the
    /// world and leads onto a floor tile.
    pub open spec fn can_move(self, dir: Direction) -> bool {
        spec_valid_move(self.player_pos, (0, 0), self.world_bounds, dir) && is_floor_at(
            self.grid,
            spec_move_dir(self.player_pos, dir),
        )
    }

    /// The game after one update with the given keys. While a move is shown
    /// the counter runs down and the keys are ignored. Otherwise the player
    /// steps in the direction that the keys ask for, if that step is possible,
    /// and the counter starts anew; without such a step nothing changes.
    pub open spec fn spec_update(self, keys: Seq<Input>) -> Game {
        if self.transition > 0 {
            Game { transition: (self.transition - 1) as i32, ..self }
        } else {
            match last_direction(keys) {
                Some(dir) if self.can_move(dir) => Game {
                    last_player_pos: Some(self.player_pos),
                    player_pos: spec_move_dir(self.player_pos, dir),
                    transition: COOLDOWN,
                    ..self
                },
                _ => self,
            }
        }
    }

    /// Advances the game by one tick with the keys that are held down.
    pub fn update(&mut self, keys: &[Input])
        requires
            old(self).wf(),
        ensures
            *final(self) == old(self).spec_update(keys@),
            final(self).wf(),
    {
        // don't update at all if we're transitioning
        if self.transition > 0 {
            self.transition -= 1;
            return ;
        }
        let dir = read_direction(keys);
        if let Some(d) = dir {
            if valid_move(self.player_pos, (0, 0), self.world_bounds, d) {
                let new_pos = move_dir(self.player_pos, d);
                match self.grid.get(new_pos) {
                    Ok(Tile::Floor) => {
                        self.last_player_pos = Some(self.player_pos);
                        self.player_pos = new_pos;
                        self.transition = COOLDOWN;
                    },
                    _ => {},
                }
            }
        }
    }

    /// The game after one update for each of `rounds`, in their order.
    pub open spec fn after_updates(self, rounds: Seq<Seq<Input>>) -> Game
        decreases rounds.len(),
    {
        if rounds.len() == 0 {
            self
        } else {
            self.after_updates(rounds.drop_last()).spec_update(rounds.last())
        }
    }

    /// While the counter has not run down, updates only count: after as many
    /// updates as the counter allows, whatever the keys, the player stands
    /// where it stood, and the counter is lower by the number of updates.
    pub proof fn lemma_throttled(self, rounds: Seq<Seq<Input>>)
        requires
            rounds.len() <= self.transition,
        ensures
            self.after_updates(rounds) == (Game {
                transition: (self.transition - rounds.len()) as i32,
                ..self
            }),
        decreases rounds.len(),
    {
        if rounds.len() > 0 {
            self.lemma_throttled(rounds.drop_last());
        }
    }

    /// After a move the player stays where it is for the next updates,
    /// whatever the keys: after 29 of them the game still shows the move, and
    /// the 30th leaves it idle, so that the update after it takes the keys
    /// again.
    pub proof fn lemma_cooldown(
        self,
        keys: Seq<Input>,
        rounds: Seq<Seq<Input>>,
        next: Seq<Input>,
    )
        requires
            self.transition <= 0,
            last_direction(keys) is Some,
            self.can_move(last_direction(keys).unwrap()),
            rounds.len() <= COOLDOWN,
        ensures
            self.spec_update(keys).player_pos == spec_move_dir(
                self.player_pos,
                last_direction(keys).unwrap(),
            ),
            self.spec_update(keys).after_updates(rounds).player_pos == self.spec_update(
                keys,
            ).player_pos,
            self.spec_update(keys).after_updates(rounds).transition == COOLDOWN - rounds.len(),
            rounds.len() == COOLDOWN && last_direction(next) is Some && self.spec_update(
                keys,
            ).after_updates(rounds).can_move(last_direction(next).unwrap()) ==> self.spec_update(
                keys,
            ).after_updates(rounds).spec_update(next).player_pos == spec_move_dir(
                self.spec_update(keys).player_pos,
                last_direction(next).unwrap(),
            ),
    {
        self.spec_update(keys).lemma_throttled(rounds);
    }
}

impl Game {
    /// The buffer after the player's sprite has been laid over the tile that
    /// the player stands on; the transparent pixels of the sprite leave the
    /// buffer as it is.
    pub open spec fn with_player(self, pixels: Seq<u32>) -> Seq<u32> {
        spec_paint(
            pixels,
            self.grid.stride() as usize,
            self.sprite_size,
            self.player_pos,
            self.sprite_data.player@,
            true,
        )
    }

    /// The buffer after a frame has been drawn. A new level is rendered in
    /// full, and the player drawn onto it. After a move only the player is
    /// drawn, and then the tile that it left.
    pub open spec fn frame(self, pixels: Seq<u32>) -> Seq<u32> {
        match self.last_player_pos {
            None => self.with_player(self.grid.rendered(self.sprite_data.tiles, pixels)),
            Some(pos) => self.grid.with_tile(
                self.sprite_data.tiles,
                pos,
                self.with_player(pixels),
            ),
        }
    }

    /// Draws a frame into the buffer, or reports that the buffer cannot hold
    /// the grid and leaves it as it is.
    pub fn write_to(&self, buffer: &mut [u32]) -> (r: Result<(), GridError>)
        requires
            self.wf(),
        ensures
            r is Ok <==> self.grid.pixel_count() <= old(buffer)@.len(),
            r is Err ==> r == Err::<(), GridError>(GridError::BufferTooSmall) && final(buffer)@
                == old(buffer)@,
            r is Ok ==> final(buffer)@ == self.frame(old(buffer)@),
    {
        if !self.grid.fits(buffer.len()) {
            return Err(GridError::BufferTooSmall);
        }
        // Render all the tiles if we're in a new area
        if let None = self.last_player_pos {
            match self.grid.write_to(&self.sprite_data.tiles, buffer) {
                Ok(()) => {},
                Err(e) => {
                    return Err(e);
                },
            }
        }
        // Render the player
        proof {
            self.grid.lemma_tile_fits(self.player_pos, buffer.len() as int);
        }
        let stride = self.grid.width * self.sprite_size;
        paint(
            buffer,
            stride,
            self.sprite_size,
            self.player_pos,
            self.sprite_data.player.as_slice(),
            true,
        );
        // Render over the player's last position
        if let Some(pos) = self.last_player_pos {
            match self.grid.write_pos(&self.sprite_data.tiles, pos, buffer) {
                Ok(()) => {},
                Err(e) => {
                    return Err(e);
                },
            }
        }
        Ok(())
    }
}

} // verus!
