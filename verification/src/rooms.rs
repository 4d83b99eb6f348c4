use crate::rng::pick;
use crate::tiles::{
    cell, lemma_cell_bound, lemma_cell_injective, lemma_cell_join, lemma_cell_split,
    GridError, Tile,
};
use rand::StdRng;
use vstd::prelude::*;

verus! {

/// A rectangular room: its top left cell (row, column) and the bound below
/// and to the right of it, which is not part of the room.
#[derive(Clone, Copy, Debug)]
pub struct Room {
    pub top_left: (usize, usize),
    /// Non inclusive bound
    pub down_right: (usize, usize),
}

impl Room {
    /// A room holds at least one cell.
    pub open spec fn wf(self) -> bool {
        self.top_left.0 < self.down_right.0 && self.top_left.1 < self.down_right.1
    }

    /// Whether the cell at row `r`, column `c` is part of the room.
    pub open spec fn covers(self, r: int, c: int) -> bool {
        self.top_left.0 <= r < self.down_right.0 && self.top_left.1 <= c < self.down_right.1
    }

    /// Whether the cell with row-major index `k` in a grid of the given width
    /// is part of the room.
    pub open spec fn covers_index(self, k: int, width: usize) -> bool {
        self.covers(k / (width as int), k % (width as int))
    }

    /// Whether the bounding boxes of two rooms intersect.
    pub open spec fn overlaps(self, that: Room) -> bool {
        &&& self.top_left.0 < that.down_right.0
        &&& that.top_left.0 < self.down_right.0
        &&& self.top_left.1 < that.down_right.1
        &&& that.top_left.1 < self.down_right.1
    }

    /// Whether the room can be widened by one tile on every side.
    pub open spec fn has_margin(self) -> bool {
        &&& self.top_left.0 >= 1
        &&& self.top_left.1 >= 1
        &&& self.down_right.0 < usize::MAX
        &&& self.down_right.1 < usize::MAX
    }

    /// The room widened by one tile on every side.
    pub open spec fn spec_padded(self) -> Room {
        Room {
            top_left: ((self.top_left.0 - 1) as usize, (self.top_left.1 - 1) as usize),
            down_right: ((self.down_right.0 + 1) as usize, (self.down_right.1 + 1) as usize),
        }
    }

    /// Makes the room of the given size whose top left cell is `pos`.
    pub fn new(pos: (usize, usize), width: usize, height: usize) -> (room: Room)
        requires
            width > 0,
            height > 0,
            pos.0 + height <= usize::MAX,
            pos.1 + width <= usize::MAX,
        ensures
            room.top_left == pos,
            room.down_right == ((pos.0 + height) as usize, (pos.1 + width) as usize),
            room.wf(),
    {
        let (r, c) = pos;
        Room { top_left: pos, down_right: (r + height, c + width) }
    }

    /// Widens the room by one tile on every side.
    pub fn padded(&self) -> (room: Room)
        requires
            self.has_margin(),
        ensures
            room == self.spec_padded(),
    {
        Room {
            top_left: (self.top_left.0 - 1, self.top_left.1 - 1),
            down_right: (self.down_right.0 + 1, self.down_right.1 + 1),
        }
    }

    /// Check whether or not 2 rooms collide
    pub fn collides_with(&self, that: &Room) -> (hit: bool)
        ensures
            hit == self.overlaps(*that),
    {
        self.top_left.0 < that.down_right.0 && that.top_left.0 < self.down_right.0
            && self.top_left.1 < that.down_right.1 && that.top_left.1 < self.down_right.1
    }
}

/// Two rooms collide exactly when some cell is part of both.
pub proof fn lemma_overlap_shares_cell(a: Room, b: Room)
    requires
        a.wf(),
        b.wf(),
    ensures
        a.overlaps(b) <==> exists|r: int, c: int| #[trigger] a.covers(r, c) && b.covers(r, c),
{
    if a.overlaps(b) {
        let r = if a.top_left.0 >= b.top_left.0 {
            a.top_left.0 as int
        } else {
            b.top_left.0 as int
        };
        let c = if a.top_left.1 >= b.top_left.1 {
            a.top_left.1 as int
        } else {
            b.top_left.1 as int
        };
        assert(a.covers(r, c) && b.covers(r, c));
    }
}

/// The tiles after the cells of `room` have been turned into floor.
pub open spec fn with_room(tiles: Seq<Tile>, room: Room, width: usize) -> Seq<Tile> {
    Seq::new(
        tiles.len(),
        |k: int|
            if room.covers_index(k, width) {
                Tile::Floor
            } else {
                tiles[k]
            },
    )
}

/// Whether the cell with index `k` is part of one of the rooms.
pub open spec fn in_rooms(rooms: Seq<Room>, k: int, width: usize) -> bool {
    exists|i: int| 0 <= i < rooms.len() && (#[trigger] rooms[i]).covers_index(k, width)
}

/// The tiles after the cells of every room have been turned into floor.
pub open spec fn with_rooms(tiles: Seq<Tile>, rooms: Seq<Room>, width: usize) -> Seq<Tile> {
    Seq::new(
        tiles.len(),
        |k: int|
            if in_rooms(rooms, k, width) {
                Tile::Floor
            } else {
                tiles[k]
            },
    )
}

/// Whether the cell with index `k` is part of `room` and comes, row by row,
/// before the cell at row `r`, column `c`.
pub open spec fn painted(room: Room, k: int, width: usize, r: int, c: int) -> bool {
    let kr = k / (width as int);
    let kc = k % (width as int);
    room.covers(kr, kc) && (kr < r || (kr == r && kc < c))
}

/// The tiles after the cells of `room` before row `r`, column `c` have been
/// turned into floor.
pub open spec fn partly_carved(tiles: Seq<Tile>, room: Room, width: usize, r: int, c: int) -> Seq<
    Tile,
> {
    Seq::new(
        tiles.len(),
        |k: int|
            if painted(room, k, width, r, c) {
                Tile::Floor
            } else {
                tiles[k]
            },
    )
}

/// Turns every cell of `room` into floor, whatever it was before.
pub fn carve_room(buffer: &mut [Tile], width: usize, room: &Room)
    requires
        room.wf(),
        room.down_right.1 <= width,
        room.down_right.0 * width <= old(buffer)@.len(),
    ensures
        final(buffer)@ == with_room(old(buffer)@, *room, width),
{
    let (r0, c0) = room.top_left;
    let (rmax, cmax) = room.down_right;
    let ghost before = buffer@;
    let ghost n = buffer.len();
    let mut r: usize = r0;
    assert(buffer@ =~= partly_carved(before, *room, width, r as int, c0 as int));
    while r < rmax
        invariant
            r0 <= r <= rmax,
            (r0, c0) == room.top_left,
            (rmax, cmax) == room.down_right,
            room.wf(),
            cmax <= width,
            rmax * width <= n,
            n == before.len(),
            buffer@ == partly_carved(before, *room, width, r as int, c0 as int),
        decreases rmax - r,
    {
        let mut c: usize = c0;
        while c < cmax
            invariant
                r0 <= r < rmax,
                c0 <= c <= cmax,
                (r0, c0) == room.top_left,
                (rmax, cmax) == room.down_right,
                room.wf(),
                cmax <= width,
                rmax * width <= n,
                n == before.len(),
                buffer@ == partly_carved(before, *room, width, r as int, c as int),
            decreases cmax - c,
        {
            proof {
                assert(r * width + width <= rmax * width) by (nonlinear_arith)
                    requires
                        r + 1 <= rmax,
                ;
                assert(0 <= r * width) by (nonlinear_arith);
                lemma_cell_split(r as int, c as int, width as int);
            }
            buffer[r * width + c] = Tile::Floor;
            proof {
                let next = partly_carved(before, *room, width, r as int, c + 1);
                assert forall|k: int| 0 <= k < n implies buffer@[k] == next[k] by {
                    lemma_cell_join(k, width as int);
                }
                assert(buffer@ =~= next);
            }
            c += 1;
        }
        proof {
            let next = partly_carved(before, *room, width, r + 1, c0 as int);
            assert(buffer@ =~= next);
        }
        r += 1;
    }
    assert(buffer@ =~= with_room(before, *room, width));
}

/// The least side of a room.
pub const ROOM_MIN_SIDE: usize = 3;

/// The bound that the side of a room stays below.
pub const ROOM_SIDE_LIMIT: usize = 7;

/// The least number of rows and of columns of a grid that takes rooms: it
/// leaves one anchor, a room of the least side, and a wall around it.
pub const MIN_GRID_SIDE: usize = 5;

/// Whether `p` may be the top left cell of a room: inside the grid, off the
/// border, and far enough from the lower and right border for the smallest
/// room.
pub open spec fn is_anchor(p: (usize, usize), width: usize, height: usize) -> bool {
    1 <= p.0 < height - 3 && 1 <= p.1 < width - 3
}

/// Whether `room` is one that the placement may draw: it starts at an
/// anchor, its sides are within the limits, and it stays off the border of
/// the grid.
pub open spec fn room_in_range(room: Room, width: usize, height: usize) -> bool {
    &&& is_anchor(room.top_left, width, height)
    &&& ROOM_MIN_SIDE <= room.down_right.0 - room.top_left.0 < ROOM_SIDE_LIMIT
    &&& ROOM_MIN_SIDE <= room.down_right.1 - room.top_left.1 < ROOM_SIDE_LIMIT
    &&& room.down_right.0 < height
    &&& room.down_right.1 < width
}

/// Whether the padded bounding boxes of any two of the rooms are disjoint.
pub open spec fn rooms_apart(rooms: Seq<Room>) -> bool {
    forall|i: int, j: int|
        0 <= i < j < rooms.len() ==> !(#[trigger] rooms[i]).spec_padded().overlaps(
            (#[trigger] rooms[j]).spec_padded(),
        )
}

/// Whether the padded box of `room` intersects that of one of `rooms`.
pub open spec fn collides_any(rooms: Seq<Room>, room: Room) -> bool {
    exists|i: int|
        0 <= i < rooms.len() && (#[trigger] rooms[i]).spec_padded().overlaps(room.spec_padded())
}

/// The anchors of a grid, row by row.
pub open spec fn spec_anchors(width: usize, height: usize) -> Seq<(usize, usize)> {
    Seq::new(
        ((height - 4) * (width - 4)) as nat,
        |k: int| ((1 + k / (width - 4)) as usize, (1 + k % (width - 4)) as usize),
    )
}

/// Lists the anchors of a grid, row by row.
pub fn anchors(width: usize, height: usize) -> (v: Vec<(usize, usize)>)
    requires
        width >= MIN_GRID_SIDE,
        height >= MIN_GRID_SIDE,
        width * height <= usize::MAX,
    ensures
        v@ == spec_anchors(width, height),
        v@.len() > 0,
        forall|i: int| 0 <= i < v@.len() ==> is_anchor(#[trigger] v@[i], width, height),
{
    let mut v: Vec<(usize, usize)> = Vec::new();
    let ghost all = spec_anchors(width, height);
    let ghost span = (width - 4) as int;
    proof {
        assert(all.len() >= 1) by (nonlinear_arith)
            requires
                all.len() == (height - 4) * (width - 4),
                height - 4 >= 1,
                width - 4 >= 1,
        ;
        assert forall|k: int| 0 <= k < all.len() implies is_anchor(
            #[trigger] all[k],
            width,
            height,
        ) by {
            lemma_cell_join(k, span);
            let q = k / span;
            if q >= height - 4 {
                assert(q * span >= (height - 4) * span) by (nonlinear_arith)
                    requires
                        q >= height - 4,
                        span > 0,
                ;
            }
        }
    }
    let mut r: usize = 1;
    while r < height - 3
        invariant
            1 <= r <= height - 3,
            width >= MIN_GRID_SIDE,
            height >= MIN_GRID_SIDE,
            span == width - 4,
            all == spec_anchors(width, height),
            v@.len() == (r - 1) * span,
            v@ == all.take(v@.len() as int),
        decreases height - 3 - r,
    {
        let mut c: usize = 1;
        while c < width - 3
            invariant
                1 <= r < height - 3,
                1 <= c <= width - 3,
                width >= MIN_GRID_SIDE,
                height >= MIN_GRID_SIDE,
                span == width - 4,
                all == spec_anchors(width, height),
                v@.len() == (r - 1) * span + (c - 1),
                v@ == all.take(v@.len() as int),
            decreases width - 3 - c,
        {
            proof {
                let k = v@.len() as int;
                lemma_cell_split(r - 1, c - 1, span);
                assert((r - 1) * span + span <= (height - 4) * span) by (nonlinear_arith)
                    requires
                        r - 1 + 1 <= height - 4,
                        span > 0,
                ;
                assert(all[k] == (r, c));
                assert(all.take(k + 1) =~= all.take(k).push((r, c)));
            }
            v.push((r, c));
            c += 1;
        }
        proof {
            assert((r - 1) * span + span == (r + 1 - 1) * span) by (nonlinear_arith);
        }
        r += 1;
    }
    proof {
        assert(all.take(all.len() as int) =~= all);
    }
    v
}

/// The sides that a room may have where `limit` bounds them from above: from
/// the least side up to, but not including, `limit`.
pub open spec fn spec_room_sizes(limit: usize) -> Seq<usize> {
    Seq::new(
        if limit > ROOM_MIN_SIDE {
            (limit - ROOM_MIN_SIDE) as nat
        } else {
            0
        },
        |i: int| (i + ROOM_MIN_SIDE) as usize,
    )
}

/// Lists the sides that a room may have below `limit`.
pub fn room_sizes(limit: usize) -> (v: Vec<usize>)
    ensures
        v@ == spec_room_sizes(limit),
{
    let mut v: Vec<usize> = Vec::new();
    let mut s: usize = ROOM_MIN_SIDE;
    while s < limit
        invariant
            ROOM_MIN_SIDE <= s,
            s <= limit || s == ROOM_MIN_SIDE,
            v@.len() == s - ROOM_MIN_SIDE,
            forall|i: int| 0 <= i < v@.len() ==> v@[i] == i + ROOM_MIN_SIDE,
        decreases limit - s,
    {
        v.push(s);
        s += 1;
    }
    assert(v@ =~= spec_room_sizes(limit));
    v
}

/// Accepts `room` unless its padded box intersects that of a room accepted
/// before, and says whether it did.
pub fn try_place(rooms: &mut Vec<Room>, room: Room) -> (placed: bool)
    requires
        room.has_margin(),
        forall|i: int| 0 <= i < old(rooms)@.len() ==> (#[trigger] old(rooms)@[i]).has_margin(),
    ensures
        placed == !collides_any(old(rooms)@, room),
        placed ==> final(rooms)@ == old(rooms)@.push(room),
        !placed ==> final(rooms)@ == old(rooms)@,
{
    let larger = room.padded();
    let mut i: usize = 0;
    while i < rooms.len()
        invariant
            0 <= i <= rooms@.len(),
            rooms@ == old(rooms)@,
            larger == room.spec_padded(),
            forall|k: int| 0 <= k < rooms@.len() ==> (#[trigger] rooms@[k]).has_margin(),
            forall|k: int|
                0 <= k < i ==> !(#[trigger] rooms@[k]).spec_padded().overlaps(room.spec_padded()),
        decreases rooms@.len() - i,
    {
        let other = rooms[i].padded();
        if other.collides_with(&larger) {
            return false;
        }
        i += 1;
    }
    rooms.push(room);
    true
}

/// Turns the cells of every room into floor.
pub fn carve_rooms(buffer: &mut [Tile], width: usize, rooms: &Vec<Room>)
    requires
        forall|i: int|
            0 <= i < rooms@.len() ==> {
                &&& (#[trigger] rooms@[i]).wf()
                &&& rooms@[i].down_right.1 <= width
                &&& rooms@[i].down_right.0 * width <= old(buffer)@.len()
            },
    ensures
        final(buffer)@ == with_rooms(old(buffer)@, rooms@, width),
{
    let ghost before = buffer@;
    let mut i: usize = 0;
    assert(buffer@ =~= with_rooms(before, rooms@.take(0), width));
    while i < rooms.len()
        invariant
            0 <= i <= rooms@.len(),
            buffer@.len() == before.len(),
            forall|i: int|
                0 <= i < rooms@.len() ==> {
                    &&& (#[trigger] rooms@[i]).wf()
                    &&& rooms@[i].down_right.1 <= width
                    &&& rooms@[i].down_right.0 * width <= before.len()
                },
            buffer@ == with_rooms(before, rooms@.take(i as int), width),
        decreases rooms@.len() - i,
    {
        assert(rooms@[i as int].wf());
        carve_room(buffer, width, &rooms[i]);
        proof {
            let done = rooms@.take(i as int);
            let next = rooms@.take(i + 1);
            assert forall|k: int| 0 <= k < before.len() implies in_rooms(next, k, width) == (
            in_rooms(done, k, width) || rooms@[i as int].covers_index(k, width)) by {
                if in_rooms(done, k, width) {
                    let j = choose|j: int|
                        0 <= j < done.len() && (#[trigger] done[j]).covers_index(k, width);
                    assert(next[j].covers_index(k, width));
                }
                if rooms@[i as int].covers_index(k, width) {
                    assert(next[i as int].covers_index(k, width));
                }
                if in_rooms(next, k, width) {
                    let j = choose|j: int|
                        0 <= j < next.len() && (#[trigger] next[j]).covers_index(k, width);
                    if j < i {
                        assert(done[j].covers_index(k, width));
                    }
                }
            }
            assert(buffer@ =~= with_rooms(before, next, width));
        }
        i += 1;
    }
    assert(rooms@.take(i as int) =~= rooms@);
}

/// Rooms in range whose padded boxes are disjoint are at most as many as the
/// grid has cells: no two of them start at the same anchor.
pub proof fn lemma_rooms_count(rooms: Seq<Room>, width: usize, height: usize)
    requires
        forall|i: int| 0 <= i < rooms.len() ==> room_in_range(#[trigger] rooms[i], width, height),
        rooms_apart(rooms),
    ensures
        rooms.len() <= width * height,
{
    let bounds = (height, width);
    let idx = rooms.map_values(|room: Room| cell(room.top_left, width));
    assert forall|i: int, j: int| 0 <= i < idx.len() && 0 <= j < idx.len() && i != j implies idx[i]
        != idx[j] by {
        if idx[i] == idx[j] {
            assert(room_in_range(rooms[i], width, height) && room_in_range(
                rooms[j],
                width,
                height,
            ));
            lemma_cell_injective(rooms[i].top_left, rooms[j].top_left, bounds);
            if i < j {
                assert(rooms[i].spec_padded().overlaps(rooms[j].spec_padded()));
            } else {
                assert(rooms[j].spec_padded().overlaps(rooms[i].spec_padded()));
            }
        }
    }
    idx.unique_seq_to_set();
    assert(0 <= width * height) by (nonlinear_arith);
    let all = vstd::set_lib::set_int_range(0, width * height);
    vstd::set_lib::lemma_int_range(0, width * height);
    assert forall|x: int| idx.to_set().contains(x) implies all.contains(x) by {
        let i = choose|i: int| 0 <= i < idx.len() && idx[i] == x;
        assert(room_in_range(rooms[i], width, height));
        lemma_cell_bound(rooms[i].top_left, bounds);
    }
    vstd::set_lib::lemma_len_subset(idx.to_set(), all);
}

/// Why no rooms can be placed on a grid of the given size in a buffer of the
/// given length, if anything.
pub open spec fn rooms_error(width: usize, height: usize, len: nat) -> Option<GridError> {
    if width < MIN_GRID_SIDE || height < MIN_GRID_SIDE {
        Some(GridError::TooSmall)
    } else if width * height > usize::MAX {
        Some(GridError::TooLarge)
    } else if len < width * height {
        Some(GridError::OutOfBounds)
    } else {
        None
    }
}

/// Lays random rooms over the tiles of a grid and returns them.
///
/// A room is drawn by its anchor, then its width, then its height. It is
/// accepted unless its padded box intersects that of a room accepted before.
/// Each refusal uses up one of `max_attempts`, which therefore controls how
/// densely the rooms come to lie; with none left the accepted rooms are
/// carved, over whatever the tiles held. The first room drawn is always
/// accepted, so there is a room wherever there is an attempt.
pub fn random_tiles(
    width: usize,
    height: usize,
    max_attempts: i32,
    buffer: &mut [Tile],
    rng: &mut StdRng,
) -> (r: Result<Vec<Room>, GridError>)
    ensures
        match r {
            Ok(rooms) => {
                &&& rooms_error(width, height, old(buffer)@.len()) is None
                &&& forall|i: int|
                    0 <= i < rooms@.len() ==> room_in_range(#[trigger] rooms@[i], width, height)
                &&& rooms_apart(rooms@)
                &&& max_attempts <= 0 <==> rooms@.len() == 0
                &&& final(buffer)@ == with_rooms(old(buffer)@, rooms@, width)
            },
            Err(e) => rooms_error(width, height, old(buffer)@.len()) == Some(e) && final(buffer)@
                == old(buffer)@,
        },
{
    if width < MIN_GRID_SIDE || height < MIN_GRID_SIDE {
        return Err(GridError::TooSmall);
    }
    let count = match width.checked_mul(height) {
        Some(n) => n,
        None => {
            return Err(GridError::TooLarge);
        },
    };
    if buffer.len() < count {
        return Err(GridError::OutOfBounds);
    }
    let positions = anchors(width, height);
    let mut attempts = max_attempts;
    let mut rooms: Vec<Room> = Vec::new();
    while attempts > 0
        invariant
            width >= MIN_GRID_SIDE,
            height >= MIN_GRID_SIDE,
            count == width * height,
            positions@.len() > 0,
            forall|i: int|
                0 <= i < positions@.len() ==> is_anchor(#[trigger] positions@[i], width, height),
            forall|i: int|
                0 <= i < rooms@.len() ==> room_in_range(#[trigger] rooms@[i], width, height),
            rooms_apart(rooms@),
            rooms@.len() <= count,
            max_attempts <= 0 ==> rooms@.len() == 0,
            attempts <= max_attempts,
            attempts < max_attempts ==> rooms@.len() > 0,
        decreases count - rooms@.len(), attempts,
    {
        let (r, c) = pick(rng, positions.as_slice()).unwrap();
        assert(is_anchor((r, c), width, height)) by {
            let i = choose|i: int| 0 <= i < positions@.len() && positions@[i] == (r, c);
            assert(is_anchor(positions@[i], width, height));
        }
        let across = if width - c < ROOM_SIDE_LIMIT {
            width - c
        } else {
            ROOM_SIDE_LIMIT
        };
        let down = if height - r < ROOM_SIDE_LIMIT {
            height - r
        } else {
            ROOM_SIDE_LIMIT
        };
        // Chooses room sizes from 3 up, but makes sure not to hit the edge
        let widths = room_sizes(across);
        let w = pick(rng, widths.as_slice()).unwrap();
        let heights = room_sizes(down);
        let h = pick(rng, heights.as_slice()).unwrap();
        proof {
            let i = choose|i: int| 0 <= i < widths@.len() && widths@[i] == w;
            let j = choose|j: int| 0 <= j < heights@.len() && heights@[j] == h;
        }
        let room = Room::new((r, c), w, h);
        assert(room_in_range(room, width, height));
        assert forall|i: int| 0 <= i < rooms@.len() implies (#[trigger] rooms@[i]).has_margin() by {
            assert(room_in_range(rooms@[i], width, height));
        }
        let ghost before = rooms@;
        let placed = try_place(&mut rooms, room);
        if placed {
            proof {
                assert forall|i: int, j: int| 0 <= i < j < rooms@.len() implies !(
                #[trigger] rooms@[i]).spec_padded().overlaps(
                    (#[trigger] rooms@[j]).spec_padded(),
                ) by {
                    if j < before.len() {
                        assert(rooms@[i] == before[i] && rooms@[j] == before[j]);
                    } else {
                        assert(rooms@[i] == before[i]);
                    }
                }
                assert forall|i: int| 0 <= i < rooms@.len() implies room_in_range(
                    #[trigger] rooms@[i],
                    width,
                    height,
                ) by {
                    if i < before.len() {
                        assert(rooms@[i] == before[i]);
                    }
                }
                lemma_rooms_count(rooms@, width, height);
            }
        } else {
            attempts -= 1;
        }
    }
    // Now we place the tiles
    proof {
        assert forall|i: int| 0 <= i < rooms@.len() implies {
            &&& (#[trigger] rooms@[i]).wf()
            &&& rooms@[i].down_right.1 <= width
            &&& rooms@[i].down_right.0 * width <= buffer@.len()
        } by {
            assert(room_in_range(rooms@[i], width, height));
            let d = rooms@[i].down_right.0;
            assert(d * width <= height * width) by (nonlinear_arith)
                requires
                    d <= height,
            ;
            assert(height * width == width * height) by (nonlinear_arith);
        }
    }
    carve_rooms(buffer, width, &rooms);
    Ok(rooms)
}

/// Rooms are carved inside the grid and off its border: a tile that the rooms
/// change lies in a row from 1 to `height - 2` and in a column from 1 to
/// `width - 2`.
pub proof fn lemma_rooms_write_inside(
    tiles: Seq<Tile>,
    rooms: Seq<Room>,
    width: usize,
    height: usize,
    k: int,
)
    requires
        forall|i: int| 0 <= i < rooms.len() ==> room_in_range(#[trigger] rooms[i], width, height),
        0 <= k < tiles.len(),
        with_rooms(tiles, rooms, width)[k] != tiles[k],
    ensures
        1 <= k / (width as int) < height - 1,
        1 <= k % (width as int) < width - 1,
        k < width * height,
{
    assert(in_rooms(rooms, k, width));
    let i = choose|i: int| 0 <= i < rooms.len() && (#[trigger] rooms[i]).covers_index(k, width);
    assert(room_in_range(rooms[i], width, height));
    lemma_cell_join(k, width as int);
    let r = k / (width as int);
    assert(r * width + width <= height * width) by (nonlinear_arith)
        requires
            r + 1 <= height,
    ;
    assert(height * width == width * height) by (nonlinear_arith);
}

} // verus!
