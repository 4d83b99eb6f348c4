use crate::maze::{carved, is_finished, is_maze, random_maze};
use crate::render::{paint, spec_paint, takes_pixel};
use crate::rooms::{random_tiles, room_in_range, rooms_apart, with_rooms, Room, MIN_GRID_SIDE};
use rand::StdRng;
use vstd::prelude::*;

verus! {

/// A single cell of a level.
#[derive(Clone, Copy, Debug, PartialEq, Eq, Hash, Structural)]
pub enum Tile {
    Wall,
    Floor,
}

/// Why a grid could not be built, read, written or rendered.
#[derive(Clone, Copy, Debug, PartialEq, Eq, Structural)]
pub enum GridError {
    /// The dimensions leave no interior for corridors or rooms.
    TooSmall,
    /// The number of tiles does not fit in a machine word.
    TooLarge,
    /// A position lies outside the grid.
    OutOfBounds,
    /// The pixel buffer cannot hold every pixel of the grid.
    BufferTooSmall,
    /// A sprite does not hold one pixel for each pixel of a tile.
    SpriteSize,
}

/// Whether `p` (row, column) lies strictly below `bounds` (rows, columns).
pub open spec fn in_bounds(p: (usize, usize), bounds: (usize, usize)) -> bool {
    p.0 < bounds.0 && p.1 < bounds.1
}

/// The row-major index of `p` in a grid that is `width` tiles wide.
pub open spec fn cell(p: (usize, usize), width: usize) -> int {
    p.0 * width + p.1
}

/// Every position inside the bounds has an index below the number of tiles.
pub proof fn lemma_cell_bound(p: (usize, usize), bounds: (usize, usize))
    requires
        in_bounds(p, bounds),
    ensures
        0 <= cell(p, bounds.1) < bounds.0 * bounds.1,
{
    assert(p.0 * bounds.1 + bounds.1 <= bounds.0 * bounds.1) by (nonlinear_arith)
        requires
            p.0 + 1 <= bounds.0,
    ;
    assert(0 <= p.0 * bounds.1) by (nonlinear_arith);
}

/// Two positions inside the bounds that share an index are the same position.
pub proof fn lemma_cell_injective(p: (usize, usize), q: (usize, usize), bounds: (usize, usize))
    requires
        in_bounds(p, bounds),
        in_bounds(q, bounds),
        cell(p, bounds.1) == cell(q, bounds.1),
    ensures
        p == q,
{
    let w = bounds.1 as int;
    if p.0 < q.0 {
        assert(p.0 * w + w <= q.0 * w) by (nonlinear_arith)
            requires
                p.0 + 1 <= q.0,
                w >= 0,
        ;
    } else if q.0 < p.0 {
        assert(q.0 * w + w <= p.0 * w) by (nonlinear_arith)
            requires
                q.0 + 1 <= p.0,
                w >= 0,
        ;
    }
}

/// The quotient and the remainder of a row-major index are its row and its
/// column.
pub proof fn lemma_cell_split(r: int, c: int, width: int)
    requires
        0 <= r,
        0 <= c < width,
    ensures
        (r * width + c) / width == r,
        (r * width + c) % width == c,
{
    vstd::arithmetic::div_mod::lemma_fundamental_div_mod_converse(r * width + c, width, r, c);
}

/// A non-negative index is the row-major index of its quotient and remainder.
pub proof fn lemma_cell_join(k: int, width: int)
    requires
        0 <= k,
        0 < width,
    ensures
        k == (k / width) * width + k % width,
        0 <= k / width,
        0 <= k % width < width,
{
    vstd::arithmetic::div_mod::lemma_fundamental_div_mod(k, width);
    vstd::arithmetic::div_mod::lemma_div_pos_is_pos(k, width);
    vstd::arithmetic::div_mod::lemma_mod_bound(k, width);
    assert(width * (k / width) == (k / width) * width) by (nonlinear_arith);
}

/// The side of a tile of a generated level, in pixels.
pub const TILE_SIZE: usize = 32;

/// The number of refused rooms after which the placement of rooms ends.
pub const ROOM_ATTEMPTS: i32 = 100;

/// The pixel block of each kind of tile.
pub struct TileSprites {
    pub wall: Vec<u32>,
    pub floor: Vec<u32>,
}

impl TileSprites {
    /// Each block holds `size` rows of `size` pixels.
    pub open spec fn wf(self, size: usize) -> bool {
        self.wall@.len() == size * size && self.floor@.len() == size * size
    }

    /// The pixels of the block of a kind of tile, row by row.
    pub open spec fn spec_block(self, tile: Tile) -> Seq<u32> {
        match tile {
            Tile::Wall => self.wall@,
            Tile::Floor => self.floor@,
        }
    }

    /// The block of a kind of tile.
    pub fn block(&self, tile: Tile) -> (b: &Vec<u32>)
        ensures
            b@ == self.spec_block(tile),
    {
        match tile {
            Tile::Wall => &self.wall,
            Tile::Floor => &self.floor,
        }
    }
}

/// Whether `tiles` is `maze` with the cells of `rooms` turned into floor,
/// for a finished maze of the given size and at least one room, the rooms
/// lying in range and apart.
pub open spec fn level_of(
    maze: Seq<Tile>,
    rooms: Seq<Room>,
    tiles: Seq<Tile>,
    width: usize,
    height: usize,
) -> bool {
    &&& is_maze(maze, (height, width))
    &&& is_finished(maze, (height, width))
    &&& rooms.len() > 0
    &&& forall|i: int| 0 <= i < rooms.len() ==> room_in_range(#[trigger] rooms[i], width, height)
    &&& rooms_apart(rooms)
    &&& tiles == with_rooms(maze, rooms, width)
}

/// Whether `tiles` is a level: a maze with rooms laid over it.
pub open spec fn is_level(tiles: Seq<Tile>, width: usize, height: usize) -> bool {
    exists|maze: Seq<Tile>, rooms: Seq<Room>| #[trigger] level_of(maze, rooms, tiles, width, height)
}

/// The corner (0, 0) of a level is floor.
pub proof fn lemma_level_start(tiles: Seq<Tile>, width: usize, height: usize)
    requires
        is_level(tiles, width, height),
    ensures
        tiles.len() == width * height,
        tiles.len() > 0,
        tiles[0] == Tile::Floor,
{
    let (maze, rooms) = choose|maze: Seq<Tile>, rooms: Seq<Room>| #[trigger]
        level_of(maze, rooms, tiles, width, height);
    let order = choose|order: Seq<(usize, usize)>| carved(order, maze, (height, width));
    let start = (0usize, 0usize);
    assert(in_bounds(order[0], (height, width)));
    assert(order.contains(start));
    lemma_cell_bound(start, (height, width));
    assert(start.0 * width == 0) by (nonlinear_arith)
        requires
            start.0 == 0,
    ;
    assert(maze[cell(start, width)] == Tile::Floor);
    assert(height * width == width * height) by (nonlinear_arith);
}

/// Why no level of the given size can be made, if anything.
pub open spec fn level_error(width: usize, height: usize) -> Option<GridError> {
    if width < MIN_GRID_SIDE || height < MIN_GRID_SIDE {
        Some(GridError::TooSmall)
    } else if width * height > usize::MAX {
        Some(GridError::TooLarge)
    } else {
        None
    }
}

/// Used to represent a tile map
pub struct TileGrid {
    pub tiles: Vec<Tile>,
    pub width: usize,
    pub height: usize,
    pub size: usize,
}

impl TileGrid {
    /// The grid holds one tile for each of its cells, row by row.
    pub open spec fn wf(self) -> bool {
        self.tiles@.len() == self.width * self.height
    }

    /// The bounds (rows, columns) of the grid.
    pub open spec fn bounds(self) -> (usize, usize) {
        (self.height, self.width)
    }

    /// The tile at a position.
    pub open spec fn tile(self, pos: (usize, usize)) -> Tile {
        self.tiles@[cell(pos, self.width)]
    }

    /// The width of the rendered grid, in pixels.
    pub open spec fn stride(self) -> int {
        self.width * self.size
    }

    /// The number of pixels of the rendered grid.
    pub open spec fn pixel_count(self) -> int {
        (self.height * self.size) * (self.width * self.size)
    }

    /// Generates a new TileGrid at random: a maze with rooms laid over it.
    pub fn random(width: usize, height: usize, rng: &mut StdRng) -> (r: Result<TileGrid, GridError>)
        ensures
            match r {
                Ok(grid) => {
                    &&& level_error(width, height) is None
                    &&& grid.wf()
                    &&& grid.width == width
                    &&& grid.height == height
                    &&& grid.size == TILE_SIZE
                    &&& is_level(grid.tiles@, width, height)
                },
                Err(e) => level_error(width, height) == Some(e),
            },
    {
        if width < MIN_GRID_SIDE || height < MIN_GRID_SIDE {
            return Err(GridError::TooSmall);
        }
        let mut v = match random_maze(width, height, rng) {
            Ok(v) => v,
            Err(e) => {
                return Err(e);
            },
        };
        let ghost maze = v@;
        proof {
            assert(height * width == width * height) by (nonlinear_arith);
        }
        match random_tiles(width, height, ROOM_ATTEMPTS, v.as_mut_slice(), rng) {
            Ok(rooms) => {
                assert(level_of(maze, rooms@, v@, width, height));
                Ok(TileGrid { tiles: v, width: width, height: height, size: TILE_SIZE })
            },
            Err(e) => Err(e),
        }
    }

    /// Reads the tile at a position, or reports that the position lies
    /// outside the grid.
    pub fn get(&self, pos: (usize, usize)) -> (r: Result<Tile, GridError>)
        requires
            self.wf(),
        ensures
            r == if in_bounds(pos, self.bounds()) {
                Ok::<Tile, GridError>(self.tile(pos))
            } else {
                Err::<Tile, GridError>(GridError::OutOfBounds)
            },
    {
        if pos.0 >= self.height || pos.1 >= self.width {
            return Err(GridError::OutOfBounds);
        }
        proof {
            assert(self.tiles.len() <= usize::MAX);
            lemma_cell_bound(pos, self.bounds());
            assert(0 <= pos.0 * self.width) by (nonlinear_arith);
            assert(self.height * self.width == self.width * self.height) by (nonlinear_arith);
        }
        Ok(self.tiles[pos.0 * self.width + pos.1])
    }

    /// Writes the tile at a position, or reports that the position lies
    /// outside the grid and leaves the grid as it is.
    pub fn set(&mut self, pos: (usize, usize), tile: Tile) -> (r: Result<(), GridError>)
        requires
            old(self).wf(),
        ensures
            final(self).wf(),
            final(self).width == old(self).width,
            final(self).height == old(self).height,
            final(self).size == old(self).size,
            r is Ok <==> in_bounds(pos, old(self).bounds()),
            r is Err ==> r == Err::<(), GridError>(GridError::OutOfBounds) && final(self).tiles@
                == old(self).tiles@,
            r is Ok ==> final(self).tiles@ == old(self).tiles@.update(
                cell(pos, old(self).width),
                tile,
            ),
    {
        if pos.0 >= self.height || pos.1 >= self.width {
            return Err(GridError::OutOfBounds);
        }
        proof {
            assert(self.tiles.len() <= usize::MAX);
            lemma_cell_bound(pos, self.bounds());
            assert(0 <= pos.0 * self.width) by (nonlinear_arith);
            assert(self.height * self.width == self.width * self.height) by (nonlinear_arith);
        }
        let k = pos.0 * self.width + pos.1;
        self.tiles[k] = tile;
        Ok(())
    }
}

impl TileGrid {
    /// Why the tile at `pos` cannot be painted into a buffer of `len` pixels,
    /// if anything.
    pub open spec fn tile_error(self, pos: (usize, usize), len: nat) -> Option<GridError> {
        if !in_bounds(pos, self.bounds()) {
            Some(GridError::OutOfBounds)
        } else if len < self.pixel_count() {
            Some(GridError::BufferTooSmall)
        } else {
            None
        }
    }

    /// The buffer after the block of the tile at `pos` has been painted over
    /// that tile.
    pub open spec fn with_tile(self, tilemap: TileSprites, pos: (usize, usize), pixels: Seq<u32>)
        -> Seq<u32> {
        spec_paint(
            pixels,
            self.stride() as usize,
            self.size,
            pos,
            tilemap.spec_block(self.tile(pos)),
            false,
        )
    }

    /// The value of pixel `i` of the rendered grid: the pixel of the block of
    /// the tile that `i` falls into.
    pub open spec fn pixel(self, tilemap: TileSprites, i: int) -> u32 {
        let pr = i / self.stride();
        let pc = i % self.stride();
        let size = self.size as int;
        tilemap.spec_block(self.tiles@[(pr / size) * self.width + pc / size])[(pr % size) * size
            + pc % size]
    }

    /// Whether pixel `i` falls into a tile that comes, row by row, before the
    /// tile at row `r`, column `c`.
    pub open spec fn tile_done(self, i: int, r: int, c: int) -> bool {
        let tr = (i / self.stride()) / (self.size as int);
        let tc = (i % self.stride()) / (self.size as int);
        0 <= i < self.pixel_count() && (tr < r || (tr == r && tc < c))
    }

    /// The buffer after the tiles before row `r`, column `c` have been
    /// rendered.
    pub open spec fn partly_rendered(self, tilemap: TileSprites, pixels: Seq<u32>, r: int, c: int)
        -> Seq<u32> {
        Seq::new(
            pixels.len(),
            |i: int|
                if self.tile_done(i, r, c) {
                    self.pixel(tilemap, i)
                } else {
                    pixels[i]
                },
        )
    }

    /// The buffer after the whole grid has been rendered: every pixel of the
    /// grid shows its tile, and what lies behind the grid's pixels stays.
    pub open spec fn rendered(self, tilemap: TileSprites, pixels: Seq<u32>) -> Seq<u32> {
        Seq::new(
            pixels.len(),
            |i: int|
                if 0 <= i < self.pixel_count() {
                    self.pixel(tilemap, i)
                } else {
                    pixels[i]
                },
        )
    }

    /// Tells whether a buffer of `len` pixels holds every pixel of the grid.
    pub fn fits(&self, len: usize) -> (ok: bool)
        ensures
            ok == (self.pixel_count() <= len),
    {
        if self.width == 0 || self.height == 0 || self.size == 0 {
            assert(self.pixel_count() == 0) by (nonlinear_arith)
                requires
                    self.width == 0 || self.height == 0 || self.size == 0,
                    self.pixel_count() == (self.height * self.size) * (self.width * self.size),
            ;
            return true;
        }
        let ghost rows = self.height * self.size;
        let ghost cols = self.width * self.size;
        proof {
            assert(rows >= 1 && cols >= 1) by (nonlinear_arith)
                requires
                    rows == self.height * self.size,
                    cols == self.width * self.size,
                    self.height >= 1,
                    self.width >= 1,
                    self.size >= 1,
            ;
            assert(rows * cols >= rows && rows * cols >= cols) by (nonlinear_arith)
                requires
                    rows >= 1,
                    cols >= 1,
            ;
        }
        let stride = match self.width.checked_mul(self.size) {
            Some(n) => n,
            None => {
                return false;
            },
        };
        let rows = match self.height.checked_mul(self.size) {
            Some(n) => n,
            None => {
                return false;
            },
        };
        match rows.checked_mul(stride) {
            Some(n) => n <= len,
            None => false,
        }
    }
}

/// A number below `n * d` has a quotient by `d` below `n`, and is made of
/// that quotient and its remainder.
pub proof fn lemma_quotient_bound(x: int, d: int, n: int)
    requires
        0 < d,
        0 <= x < n * d,
    ensures
        0 <= x / d < n,
        0 <= x % d < d,
        x == (x / d) * d + x % d,
{
    lemma_cell_join(x, d);
    let q = x / d;
    if q >= n {
        assert(q * d >= n * d) by (nonlinear_arith)
            requires
                q >= n,
                d > 0,
        ;
    }
}

impl TileGrid {
    /// Painting the tile at row `r`, column `c` after the tiles before it
    /// leaves the tiles up to and including it rendered.
    proof fn lemma_render_step(self, tilemap: TileSprites, pixels: Seq<u32>, r: usize, c: usize)
        requires
            self.wf(),
            self.size > 0,
            r < self.height,
            c < self.width,
            self.pixel_count() <= pixels.len(),
            self.stride() <= usize::MAX,
        ensures
            self.with_tile(tilemap, (r, c), self.partly_rendered(tilemap, pixels, r as int, c as int))
                == self.partly_rendered(tilemap, pixels, r as int, c + 1),
    {
        let size = self.size as int;
        let stride = self.stride();
        let rows = self.height * self.size;
        let part = self.partly_rendered(tilemap, pixels, r as int, c as int);
        let next = self.partly_rendered(tilemap, pixels, r as int, c + 1);
        let block = tilemap.spec_block(self.tile((r, c)));
        let got = self.with_tile(tilemap, (r, c), part);
        assert(stride >= size) by (nonlinear_arith)
            requires
                stride == self.width * size,
                self.width >= 1,
                size >= 1,
        ;
        assert(r * size + size <= rows) by (nonlinear_arith)
            requires
                rows == self.height * size,
                r + 1 <= self.height,
                size >= 1,
        ;
        assert(c * size + size <= stride) by (nonlinear_arith)
            requires
                stride == self.width * size,
                c + 1 <= self.width,
                size >= 1,
        ;
        assert forall|i: int| 0 <= i < pixels.len() implies got[i] == next[i] by {
            lemma_cell_join(i, stride);
            let pr = i / stride;
            let pc = i % stride;
            lemma_cell_join(pr, size);
            lemma_cell_join(pc, size);
            let br = pr - r * size;
            let bc = pc - c * size;
            if 0 <= br < size && 0 <= bc < size {
                lemma_cell_split(r as int, br, size);
                lemma_cell_split(c as int, bc, size);
                assert(pr / size == r && pr % size == br);
                assert(pc / size == c && pc % size == bc);
                assert(pr * stride + stride <= rows * stride) by (nonlinear_arith)
                    requires
                        pr + 1 <= rows,
                        stride >= 0,
                ;
                assert(self.tile_done(i, r as int, c + 1));
                assert(takes_pixel(i, stride as usize, self.size, (r, c), block, false, size, 0));
            } else {
                if pr / size == r && pc / size == c {
                    assert(pr == r * size + pr % size);
                    assert(pc == c * size + pc % size);
                }
                assert(!takes_pixel(i, stride as usize, self.size, (r, c), block, false, size, 0));
                assert(self.tile_done(i, r as int, c + 1) == self.tile_done(i, r as int, c as int));
            }
        }
        assert(got =~= next);
    }

    /// Once the last tile of a row is rendered, so are the tiles before the
    /// next row; with the last row, the whole grid.
    proof fn lemma_render_rows(self, tilemap: TileSprites, pixels: Seq<u32>, r: usize)
        requires
            self.size > 0,
            self.width > 0,
            r < self.height,
        ensures
            self.partly_rendered(tilemap, pixels, r as int, self.width as int)
                == self.partly_rendered(tilemap, pixels, r + 1, 0),
            self.partly_rendered(tilemap, pixels, self.height as int, 0) == self.rendered(
                tilemap,
                pixels,
            ),
            self.partly_rendered(tilemap, pixels, 0, 0) == pixels,
    {
        let size = self.size as int;
        let stride = self.stride();
        let rows = self.height * self.size;
        assert(stride >= 1) by (nonlinear_arith)
            requires
                stride == self.width * size,
                self.width >= 1,
                size >= 1,
        ;
        assert forall|i: int| 0 <= i < self.pixel_count() implies 0 <= #[trigger] (i / stride)
            / size < self.height && 0 <= (i % stride) / size < self.width by {
            lemma_quotient_bound(i, stride, rows);
            lemma_quotient_bound(i / stride, size, self.height as int);
            lemma_quotient_bound(i % stride, size, self.width as int);
        }
        assert(self.partly_rendered(tilemap, pixels, 0, 0) =~= pixels);
        assert(self.partly_rendered(tilemap, pixels, r as int, self.width as int)
            =~= self.partly_rendered(tilemap, pixels, r + 1, 0));
        assert(self.partly_rendered(tilemap, pixels, self.height as int, 0) =~= self.rendered(
            tilemap,
            pixels,
        ));
    }

    /// Where the whole grid fits into a buffer, the block of each tile does,
    /// and the width of the grid in pixels is a machine word.
    pub proof fn lemma_tile_fits(self, pos: (usize, usize), len: int)
        requires
            in_bounds(pos, self.bounds()),
            self.pixel_count() <= len <= usize::MAX,
        ensures
            0 <= self.stride() <= usize::MAX,
            pos.1 * self.size + self.size <= self.stride(),
            (pos.0 * self.size + self.size) * self.stride() <= len,
    {
        let size = self.size as int;
        let stride = self.stride();
        let rows = self.height * self.size;
        assert(0 <= stride && 0 <= rows) by (nonlinear_arith)
            requires
                stride == self.width * size,
                rows == self.height * size,
                size >= 0,
        ;
        assert(pos.0 * size + size <= rows) by (nonlinear_arith)
            requires
                rows == self.height * size,
                pos.0 + 1 <= self.height,
                size >= 0,
        ;
        assert(pos.1 * size + size <= stride) by (nonlinear_arith)
            requires
                stride == self.width * size,
                pos.1 + 1 <= self.width,
                size >= 0,
        ;
        assert((pos.0 * size + size) * stride <= rows * stride) by (nonlinear_arith)
            requires
                pos.0 * size + size <= rows,
                stride >= 0,
        ;
        if size > 0 {
            assert(stride <= rows * stride) by (nonlinear_arith)
                requires
                    rows >= 1,
                    stride >= 0,
            ;
        } else {
            assert(stride == 0) by (nonlinear_arith)
                requires
                    stride == self.width * size,
                    size == 0,
            ;
        }
    }

    /// Writes a single tile to a buffer
    pub fn write_pos(&self, tilemap: &TileSprites, pos: (usize, usize), buffer: &mut [u32]) -> (r:
        Result<(), GridError>)
        requires
            self.wf(),
            tilemap.wf(self.size),
        ensures
            match self.tile_error(pos, old(buffer)@.len()) {
                Some(e) => r == Err::<(), GridError>(e) && final(buffer)@ == old(buffer)@,
                None => r is Ok && final(buffer)@ == self.with_tile(*tilemap, pos, old(buffer)@),
            },
    {
        let tile = match self.get(pos) {
            Ok(tile) => tile,
            Err(e) => {
                return Err(e);
            },
        };
        if !self.fits(buffer.len()) {
            return Err(GridError::BufferTooSmall);
        }
        let arr = tilemap.block(tile);
        proof {
            self.lemma_tile_fits(pos, buffer.len() as int);
        }
        let stride = self.width * self.size;
        paint(buffer, stride, self.size, pos, arr.as_slice(), false);
        Ok(())
    }

    /// Writes all the tiles to a mutable buffer.
    /// The buffer must be large enough to contain all the pixels.
    pub fn write_to(&self, tilemap: &TileSprites, buffer: &mut [u32]) -> (r: Result<(), GridError>)
        requires
            self.wf(),
            tilemap.wf(self.size),
        ensures
            r is Ok <==> self.pixel_count() <= old(buffer)@.len(),
            r is Err ==> r == Err::<(), GridError>(GridError::BufferTooSmall) && final(buffer)@
                == old(buffer)@,
            r is Ok ==> final(buffer)@ == self.rendered(*tilemap, old(buffer)@),
    {
        if !self.fits(buffer.len()) {
            return Err(GridError::BufferTooSmall);
        }
        let ghost before = buffer@;
        if self.size == 0 || self.width == 0 {
            proof {
                assert(self.pixel_count() == 0) by (nonlinear_arith)
                    requires
                        self.width == 0 || self.size == 0,
                        self.pixel_count() == (self.height * self.size) * (self.width * self.size),
                ;
                assert(buffer@ =~= self.rendered(*tilemap, before));
            }
            return Ok(());
        }
        if self.height == 0 {
            proof {
                assert(self.pixel_count() == 0) by (nonlinear_arith)
                    requires
                        self.height == 0,
                        self.pixel_count() == (self.height * self.size) * (self.width * self.size),
                ;
                assert(buffer@ =~= self.rendered(*tilemap, before));
            }
            return Ok(());
        }
        proof {
            assert(before.len() == buffer.len());
            self.lemma_render_rows(*tilemap, before, 0);
        }
        let mut r: usize = 0;
        while r < self.height
            invariant
                0 <= r <= self.height,
                self.wf(),
                tilemap.wf(self.size),
                self.size > 0,
                self.width > 0,
                self.height > 0,
                buffer@.len() == before.len(),
                before.len() <= usize::MAX,
                self.pixel_count() <= before.len(),
                self.partly_rendered(*tilemap, before, self.height as int, 0) == self.rendered(
                    *tilemap,
                    before,
                ),
                buffer@ == self.partly_rendered(*tilemap, before, r as int, 0),
            decreases self.height - r,
        {
            let mut c: usize = 0;
            while c < self.width
                invariant
                    0 <= r < self.height,
                    0 <= c <= self.width,
                    self.wf(),
                    tilemap.wf(self.size),
                    self.size > 0,
                    self.width > 0,
                    buffer@.len() == before.len(),
                    before.len() <= usize::MAX,
                    self.pixel_count() <= before.len(),
                    buffer@ == self.partly_rendered(*tilemap, before, r as int, c as int),
                decreases self.width - c,
            {
                proof {
                    let rows = self.height * self.size;
                    let stride = self.stride();
                    assert(rows >= 1 && stride >= 0) by (nonlinear_arith)
                        requires
                            rows == self.height * self.size,
                            stride == self.width * self.size,
                            self.height >= 1,
                            self.size >= 1,
                    ;
                    assert(stride <= rows * stride) by (nonlinear_arith)
                        requires
                            rows >= 1,
                            stride >= 0,
                    ;
                    assert(self.pixel_count() == rows * stride);
                    self.lemma_render_step(*tilemap, before, r, c);
                }
                match self.write_pos(tilemap, (r, c), buffer) {
                    Ok(()) => {},
                    Err(e) => {
                        return Err(e);
                    },
                }
                c += 1;
            }
            proof {
                self.lemma_render_rows(*tilemap, before, r);
            }
            r += 1;
        }
        Ok(())
    }
}

} // verus!
