use crate::rng::pick;
use crate::tiles::{cell, in_bounds, lemma_cell_bound, lemma_cell_injective, GridError, Tile};
use rand::StdRng;
use vstd::prelude::*;

verus! {

/// Whether two positions are one step apart, horizontally or vertically.
pub open spec fn touching(p: (usize, usize), q: (usize, usize)) -> bool {
    ||| (p.0 == q.0 && (p.1 + 1 == q.1 || q.1 + 1 == p.1))
    ||| (p.1 == q.1 && (p.0 + 1 == q.0 || q.0 + 1 == p.0))
}

/// The neighbours of `pos` that lie inside `bounds`, in the order up, left,
/// down, right.
pub open spec fn spec_adjacent(pos: (usize, usize), bounds: (usize, usize)) -> Seq<(usize, usize)> {
    let (r, c) = pos;
    let up: Seq<(usize, usize)> = if r > 0 {
        seq![((r - 1) as usize, c)]
    } else {
        Seq::empty()
    };
    let left: Seq<(usize, usize)> = if c > 0 {
        seq![(r, (c - 1) as usize)]
    } else {
        Seq::empty()
    };
    let down: Seq<(usize, usize)> = if r + 1 < bounds.0 {
        seq![((r + 1) as usize, c)]
    } else {
        Seq::empty()
    };
    let right: Seq<(usize, usize)> = if c + 1 < bounds.1 {
        seq![(r, (c + 1) as usize)]
    } else {
        Seq::empty()
    };
    up + left + down + right
}

/// The neighbours of a position inside the bounds are exactly the positions
/// inside the bounds that touch it.
pub proof fn lemma_adjacent(pos: (usize, usize), bounds: (usize, usize), q: (usize, usize))
    requires
        in_bounds(pos, bounds),
    ensures
        spec_adjacent(pos, bounds).contains(q) <==> (touching(pos, q) && in_bounds(q, bounds)),
{
    let (r, c) = pos;
    let s = spec_adjacent(pos, bounds);
    if touching(pos, q) && in_bounds(q, bounds) {
        let up: int = if r > 0 { 1 } else { 0 };
        let left: int = if c > 0 { 1 } else { 0 };
        let down: int = if r + 1 < bounds.0 { 1 } else { 0 };
        if q.0 + 1 == r {
            assert(s[0] == q);
        } else if q.1 + 1 == c {
            assert(s[up] == q);
        } else if r + 1 == q.0 {
            assert(s[up + left] == q);
        } else {
            assert(s[up + left + down] == q);
        }
    }
    if s.contains(q) {
        let i = choose|i: int| 0 <= i < s.len() && s[i] == q;
        assert(touching(pos, q) && in_bounds(q, bounds));
    }
}

/// Lists the neighbours of `pos` inside `bounds` (rows, columns).
pub fn adjacent(pos: (usize, usize), bounds: (usize, usize)) -> (v: Vec<(usize, usize)>)
    ensures
        v@ == spec_adjacent(pos, bounds),
{
    let mut v: Vec<(usize, usize)> = Vec::with_capacity(4);
    let (r, c) = pos;
    let (r_max, c_max) = bounds;
    if r > 0 {
        v.push((r - 1, c));
    }
    if c > 0 {
        v.push((r, c - 1));
    }
    if r_max > 0 && r < r_max - 1 {
        v.push((r + 1, c));
    }
    if c_max > 0 && c < c_max - 1 {
        v.push((r, c + 1));
    }
    assert(v@ =~= spec_adjacent(pos, bounds));
    v
}

/// Whether every position of `around` other than `skip` is still a wall.
pub open spec fn all_wall_except(
    tiles: Seq<Tile>,
    around: Seq<(usize, usize)>,
    skip: (usize, usize),
    width: usize,
) -> bool {
    forall|k: int|
        0 <= k < around.len() && around[k] != skip ==> tiles[cell(#[trigger] around[k], width)]
            == Tile::Wall
}

/// Whether a corridor may be extended from `from` into `p`: `p` is a wall, and
/// so is every neighbour of `p` other than `from`.
pub open spec fn carvable(
    p: (usize, usize),
    from: (usize, usize),
    bounds: (usize, usize),
    tiles: Seq<Tile>,
) -> bool {
    tiles[cell(p, bounds.1)] == Tile::Wall && all_wall_except(
        tiles,
        spec_adjacent(p, bounds),
        from,
        bounds.1,
    )
}

/// `carvable` as a predicate on the target position.
pub open spec fn carvable_from(from: (usize, usize), bounds: (usize, usize), tiles: Seq<Tile>)
    -> spec_fn((usize, usize)) -> bool {
    |p: (usize, usize)| carvable(p, from, bounds, tiles)
}

/// The neighbours of `pos` into which a corridor may be extended, in the
/// order of `spec_adjacent`.
pub open spec fn spec_valid_tiles(pos: (usize, usize), bounds: (usize, usize), tiles: Seq<Tile>)
    -> Seq<(usize, usize)> {
    spec_adjacent(pos, bounds).filter(carvable_from(pos, bounds, tiles))
}

/// Reads the tile at a position inside the bounds.
fn tile_at(grid: &[Tile], p: (usize, usize), bounds: (usize, usize)) -> (t: Tile)
    requires
        in_bounds(p, bounds),
        grid@.len() == bounds.0 * bounds.1,
    ensures
        t == grid@[cell(p, bounds.1)],
{
    proof {
        lemma_cell_bound(p, bounds);
        assert(0 <= p.0 * bounds.1) by (nonlinear_arith);
        assert(p.0 * bounds.1 + p.1 < grid.len());
    }
    grid[p.0 * bounds.1 + p.1]
}

/// Tells whether every neighbour of `p` other than `skip` is a wall.
fn walled_in(p: (usize, usize), skip: (usize, usize), bounds: (usize, usize), grid: &[Tile]) -> (b:
    bool)
    requires
        in_bounds(p, bounds),
        grid@.len() == bounds.0 * bounds.1,
    ensures
        b == all_wall_except(grid@, spec_adjacent(p, bounds), skip, bounds.1),
{
    let around = adjacent(p, bounds);
    let mut k: usize = 0;
    while k < around.len()
        invariant
            0 <= k <= around@.len(),
            around@ == spec_adjacent(p, bounds),
            in_bounds(p, bounds),
            grid@.len() == bounds.0 * bounds.1,
            all_wall_except(grid@, around@.take(k as int), skip, bounds.1),
        decreases around@.len() - k,
    {
        let q = around[k];
        proof {
            assert(around@.contains(q));
            lemma_adjacent(p, bounds, q);
        }
        if q.0 != skip.0 || q.1 != skip.1 {
            match tile_at(grid, q, bounds) {
                Tile::Floor => {
                    return false;
                },
                Tile::Wall => {},
            }
        }
        proof {
            let next = around@.take(k + 1);
            assert forall|j: int| 0 <= j < next.len() && next[j] != skip implies grid@[cell(
                #[trigger] next[j],
                bounds.1,
            )] == Tile::Wall by {
                if j < k {
                    assert(around@.take(k as int)[j] == next[j]);
                }
            }
        }
        k += 1;
    }
    assert(around@.take(k as int) =~= around@);
    true
}

/// Lists the neighbours of `pos` into which a corridor may be extended: those
/// that are walls and touch no floor but `pos` itself.
pub fn valid_tiles(pos: (usize, usize), bounds: (usize, usize), grid: &[Tile]) -> (v: Vec<
    (usize, usize),
>)
    requires
        in_bounds(pos, bounds),
        grid@.len() == bounds.0 * bounds.1,
    ensures
        v@ == spec_valid_tiles(pos, bounds, grid@),
{
    let around = adjacent(pos, bounds);
    let mut v: Vec<(usize, usize)> = Vec::new();
    proof {
        reveal(Seq::filter);
    }
    let ghost pred = carvable_from(pos, bounds, grid@);
    let mut k: usize = 0;
    while k < around.len()
        invariant
            0 <= k <= around@.len(),
            around@ == spec_adjacent(pos, bounds),
            in_bounds(pos, bounds),
            grid@.len() == bounds.0 * bounds.1,
            pred == carvable_from(pos, bounds, grid@),
            v@ == around@.take(k as int).filter(pred),
        decreases around@.len() - k,
    {
        let p = around[k];
        proof {
            assert(around@.contains(p));
            lemma_adjacent(pos, bounds, p);
        }
        let open = match tile_at(grid, p, bounds) {
            Tile::Wall => walled_in(p, pos, bounds, grid),
            Tile::Floor => false,
        };
        assert(open == pred(p));
        if open {
            v.push(p);
        }
        proof {
            let done = around@.take(k as int);
            assert(around@.take(k + 1) =~= done.push(p));
            done.lemma_filter_push(p, pred);
        }
        k += 1;
    }
    assert(around@.take(k as int) =~= around@);
    v
}

/// Whether `order[i]` is the one cell among those before `order[j]` that
/// touches `order[j]`.
pub open spec fn sole_parent(order: Seq<(usize, usize)>, i: int, j: int) -> bool {
    &&& 0 <= i < j
    &&& touching(order[i], order[j])
    &&& forall|k: int| 0 <= k < j && k != i ==> !touching(#[trigger] order[k], order[j])
}

/// Whether exactly one of the cells before `order[j]` touches it.
pub open spec fn has_parent(order: Seq<(usize, usize)>, j: int) -> bool {
    exists|i: int| #[trigger] sole_parent(order, i, j)
}

/// Whether `tiles` is the grid that carving the cells of `order`, one after
/// the other, leaves behind: the floor tiles are the cells of `order`, which
/// starts in the corner (0, 0) and names no cell twice, and each later cell
/// touches exactly one of the cells before it.
pub open spec fn carved(order: Seq<(usize, usize)>, tiles: Seq<Tile>, bounds: (usize, usize))
    -> bool {
    &&& tiles.len() == bounds.0 * bounds.1
    &&& order.len() > 0
    &&& order[0] == (0usize, 0usize)
    &&& forall|i: int| 0 <= i < order.len() ==> in_bounds(#[trigger] order[i], bounds)
    &&& order.no_duplicates()
    &&& forall|p: (usize, usize)|
        in_bounds(p, bounds) ==> (#[trigger] tiles[cell(p, bounds.1)] == Tile::Floor
            <==> order.contains(p))
    &&& forall|j: int| 1 <= j < order.len() ==> #[trigger] has_parent(order, j)
}

/// Whether `tiles` is a maze over a grid of `bounds` (rows, columns): a grid
/// that some order of carving leaves behind.
pub open spec fn is_maze(tiles: Seq<Tile>, bounds: (usize, usize)) -> bool {
    exists|order: Seq<(usize, usize)>| carved(order, tiles, bounds)
}

/// What one step of the search leaves of the tiles and of the stack: with a
/// chosen cell, that cell is carved and pushed; without one, the search
/// backs up by one cell.
pub open spec fn spec_maze_step(
    tiles: Seq<Tile>,
    stack: Seq<(usize, usize)>,
    width: usize,
    choice: Option<(usize, usize)>,
) -> (Seq<Tile>, Seq<(usize, usize)>) {
    match choice {
        Some(p) => (tiles.update(cell(p, width), Tile::Floor), stack.push(p)),
        None => (
            tiles,
            if stack.len() > 0 {
                stack.drop_last()
            } else {
                stack
            },
        ),
    }
}

/// Advances the search by one step on the outcome of the random choice among
/// the valid neighbours of the cell on top of the stack. A chosen cell
/// outside the grid is refused and nothing changes.
pub fn maze_step(
    tiles: &mut [Tile],
    stack: &mut Vec<(usize, usize)>,
    bounds: (usize, usize),
    choice: Option<(usize, usize)>,
) -> (r: Result<(), GridError>)
    requires
        old(tiles)@.len() == bounds.0 * bounds.1,
    ensures
        r is Err <==> choice is Some && !in_bounds(choice.unwrap(), bounds),
        r is Err ==> r == Err::<(), GridError>(GridError::OutOfBounds) && final(tiles)@ == old(
            tiles,
        )@ && final(stack)@ == old(stack)@,
        r is Ok ==> (final(tiles)@, final(stack)@) == spec_maze_step(
            old(tiles)@,
            old(stack)@,
            bounds.1,
            choice,
        ),
{
    match choice {
        Some(p) => {
            if p.0 >= bounds.0 || p.1 >= bounds.1 {
                return Err(GridError::OutOfBounds);
            }
            proof {
                lemma_cell_bound(p, bounds);
                assert(0 <= p.0 * bounds.1) by (nonlinear_arith);
                assert(p.0 * bounds.1 + p.1 < tiles.len());
            }
            tiles[p.0 * bounds.1 + p.1] = Tile::Floor;
            stack.push(p);
        },
        None => {
            let _ = stack.pop();
        },
    }
    Ok(())
}

/// A carving order names at most as many cells as the grid has.
pub proof fn lemma_carved_len(order: Seq<(usize, usize)>, tiles: Seq<Tile>, bounds: (usize, usize))
    requires
        carved(order, tiles, bounds),
    ensures
        order.len() <= tiles.len(),
{
    let idx = order.map_values(|p: (usize, usize)| cell(p, bounds.1));
    assert forall|i: int, j: int| 0 <= i < idx.len() && 0 <= j < idx.len() && i != j implies idx[i]
        != idx[j] by {
        if idx[i] == idx[j] {
            lemma_cell_injective(order[i], order[j], bounds);
        }
    }
    idx.unique_seq_to_set();
    let all = vstd::set_lib::set_int_range(0, tiles.len() as int);
    vstd::set_lib::lemma_int_range(0, tiles.len() as int);
    assert forall|x: int| idx.to_set().contains(x) implies all.contains(x) by {
        let i = choose|i: int| 0 <= i < idx.len() && idx[i] == x;
        lemma_cell_bound(order[i], bounds);
    }
    vstd::set_lib::lemma_len_subset(idx.to_set(), all);
}

/// Carving a valid neighbour of a carved cell keeps the grid a carving, of
/// the order extended by that neighbour.
pub proof fn lemma_carve_extends(
    order: Seq<(usize, usize)>,
    tiles: Seq<Tile>,
    bounds: (usize, usize),
    from: (usize, usize),
    p: (usize, usize),
)
    requires
        carved(order, tiles, bounds),
        order.contains(from),
        spec_valid_tiles(from, bounds, tiles).contains(p),
    ensures
        carved(order.push(p), tiles.update(cell(p, bounds.1), Tile::Floor), bounds),
        !order.contains(p),
{
    broadcast use vstd::seq_lib::group_filter_ensures;

    let around = spec_adjacent(from, bounds);
    let pred = carvable_from(from, bounds, tiles);
    let valid = around.filter(pred);
    let vi = choose|i: int| 0 <= i < valid.len() && valid[i] == p;
    assert(pred(valid[vi]));
    around.lemma_filter_contains_rev(pred, p);
    let fi = choose|i: int| 0 <= i < order.len() && order[i] == from;
    assert(in_bounds(order[fi], bounds));
    lemma_adjacent(from, bounds, p);
    lemma_cell_bound(p, bounds);
    assert(tiles[cell(p, bounds.1)] == Tile::Wall);
    assert(!order.contains(p));
    let order2 = order.push(p);
    let tiles2 = tiles.update(cell(p, bounds.1), Tile::Floor);
    let n = order.len() as int;
    assert forall|i: int| 0 <= i < order2.len() implies in_bounds(#[trigger] order2[i], bounds) by {
        if i < n {
            assert(order2[i] == order[i]);
        }
    }
    assert(order2.no_duplicates()) by {
        assert forall|i: int, j: int| 0 <= i < order2.len() && 0 <= j < order2.len() && i
            != j implies order2[i] != order2[j] by {
            if i < n && j < n {
                assert(order[i] != order[j]);
            } else if i < n {
                assert(order.contains(order[i]));
            } else {
                assert(order.contains(order[j]));
            }
        }
    }
    assert forall|q: (usize, usize)| in_bounds(q, bounds) implies (#[trigger] tiles2[cell(
        q,
        bounds.1,
    )] == Tile::Floor <==> order2.contains(q)) by {
        lemma_cell_bound(q, bounds);
        if q == p {
            assert(order2[n] == p);
        } else {
            if cell(q, bounds.1) == cell(p, bounds.1) {
                lemma_cell_injective(p, q, bounds);
            }
            assert(tiles2[cell(q, bounds.1)] == tiles[cell(q, bounds.1)]);
            if order.contains(q) {
                let i = choose|i: int| 0 <= i < order.len() && order[i] == q;
                assert(order2[i] == q);
            }
            if order2.contains(q) {
                let i = choose|i: int| 0 <= i < order2.len() && order2[i] == q;
                assert(order[i] == q);
            }
        }
    }
    assert forall|j: int| 1 <= j < order2.len() implies #[trigger] has_parent(order2, j) by {
        if j < n {
            assert(has_parent(order, j));
            let i = choose|i: int| #[trigger] sole_parent(order, i, j);
            assert(order2[i] == order[i] && order2[j] == order[j]);
            assert forall|k: int| 0 <= k < j && k != i implies !touching(
                #[trigger] order2[k],
                order2[j],
            ) by {
                assert(order2[k] == order[k]);
            }
            assert(sole_parent(order2, i, j));
        } else {
            assert(order2[fi] == from && order2[j] == p);
            assert forall|k: int| 0 <= k < j && k != fi implies !touching(
                #[trigger] order2[k],
                order2[j],
            ) by {
                let q = order[k];
                assert(order2[k] == q);
                assert(q != from);
                assert(in_bounds(q, bounds));
                assert(order.contains(q));
                lemma_cell_bound(q, bounds);
                assert(tiles[cell(q, bounds.1)] == Tile::Floor);
                if touching(q, p) {
                    lemma_adjacent(p, bounds, q);
                    let ai = choose|i: int|
                        0 <= i < spec_adjacent(p, bounds).len() && spec_adjacent(p, bounds)[i]
                            == q;
                    assert(tiles[cell(spec_adjacent(p, bounds)[ai], bounds.1)] == Tile::Wall);
                }
            }
            assert(sole_parent(order2, fi, j));
        }
    }
}

/// Whether no corridor can be extended from `p` any more.
pub open spec fn exhausted(p: (usize, usize), tiles: Seq<Tile>, bounds: (usize, usize)) -> bool {
    spec_valid_tiles(p, bounds, tiles).len() == 0
}

/// Whether the search has come to its end: no corridor can be extended from
/// any floor tile.
pub open spec fn is_finished(tiles: Seq<Tile>, bounds: (usize, usize)) -> bool {
    forall|p: (usize, usize)|
        in_bounds(p, bounds) && tiles[cell(p, bounds.1)] == Tile::Floor ==> #[trigger] exhausted(
            p,
            tiles,
            bounds,
        )
}

/// A cell from which no corridor can be extended stays so when another tile
/// is carved.
pub proof fn lemma_exhausted_stays(
    x: (usize, usize),
    tiles: Seq<Tile>,
    bounds: (usize, usize),
    k: int,
)
    requires
        in_bounds(x, bounds),
        tiles.len() == bounds.0 * bounds.1,
        exhausted(x, tiles, bounds),
        0 <= k < tiles.len(),
    ensures
        exhausted(x, tiles.update(k, Tile::Floor), bounds),
{
    let carved_more = tiles.update(k, Tile::Floor);
    let around = spec_adjacent(x, bounds);
    let before = carvable_from(x, bounds, tiles);
    let after = carvable_from(x, bounds, carved_more);
    if around.filter(after).len() > 0 {
        let q = around.filter(after)[0];
        around.lemma_filter_pred(after, 0);
        assert(around.filter(after).contains(q));
        around.lemma_filter_contains_rev(after, q);
        let i = choose|i: int| 0 <= i < around.len() && around[i] == q;
        lemma_adjacent(x, bounds, q);
        lemma_cell_bound(q, bounds);
        let beside = spec_adjacent(q, bounds);
        assert forall|j: int| 0 <= j < beside.len() && beside[j] != x implies tiles[cell(
            #[trigger] beside[j],
            bounds.1,
        )] == Tile::Wall by {
            assert(beside.contains(beside[j]));
            lemma_adjacent(q, bounds, beside[j]);
            lemma_cell_bound(beside[j], bounds);
            assert(carved_more[cell(beside[j], bounds.1)] == Tile::Wall);
        }
        assert(before(around[i]));
        around.lemma_filter_contains(before, i);
    }
}

/// The least number of rows and of columns of a maze: the start cell and one
/// tile beside it.
pub const MIN_MAZE_SIDE: usize = 2;

/// Why no maze of the given size can be made, if anything.
pub open spec fn maze_error(width: usize, height: usize) -> Option<GridError> {
    if width < MIN_MAZE_SIDE || height < MIN_MAZE_SIDE {
        Some(GridError::TooSmall)
    } else if width * height > usize::MAX {
        Some(GridError::TooLarge)
    } else {
        None
    }
}

/// A grid of walls with the corner (0, 0) carved is a carving of that corner
/// alone.
proof fn lemma_carved_start(tiles: Seq<Tile>, bounds: (usize, usize))
    requires
        bounds.0 > 0,
        bounds.1 > 0,
        tiles.len() == bounds.0 * bounds.1,
        tiles.len() > 0,
        tiles[0] == Tile::Floor,
        forall|i: int| 1 <= i < tiles.len() ==> tiles[i] == Tile::Wall,
    ensures
        carved(seq![(0usize, 0usize)], tiles, bounds),
{
    let order = seq![(0usize, 0usize)];
    assert(order[0] == (0usize, 0usize));
    assert forall|p: (usize, usize)| in_bounds(p, bounds) implies (#[trigger] tiles[cell(
        p,
        bounds.1,
    )] == Tile::Floor <==> order.contains(p)) by {
        lemma_cell_bound(p, bounds);
        let start = (0usize, 0usize);
        assert(start.0 * bounds.1 == 0) by (nonlinear_arith)
            requires
                start.0 == 0,
        ;
        if cell(p, bounds.1) == 0 {
            lemma_cell_injective(p, start, bounds);
            assert(order[0] == p);
        }
        if order.contains(p) {
            let i = choose|i: int| 0 <= i < order.len() && order[i] == p;
            assert(p == start);
        }
    }
}

/// Generates a maze by randomized depth-first search from the corner (0, 0).
///
/// The search keeps the cells of the current corridor on a stack. From the
/// cell on top it carves one of the valid neighbours, chosen at random, and
/// goes on from there; where none is left it backs up. Whatever the choices,
/// the result is a maze from no tile of which a corridor can be extended.
pub fn random_maze(width: usize, height: usize, rng: &mut StdRng) -> (r: Result<
    Vec<Tile>,
    GridError,
>)
    ensures
        match r {
            Ok(tiles) => {
                &&& maze_error(width, height) is None
                &&& is_maze(tiles@, (height, width))
                &&& is_finished(tiles@, (height, width))
            },
            Err(e) => maze_error(width, height) == Some(e),
        },
{
    if width < MIN_MAZE_SIDE || height < MIN_MAZE_SIDE {
        return Err(GridError::TooSmall);
    }
    let count = match width.checked_mul(height) {
        Some(n) => n,
        None => {
            return Err(GridError::TooLarge);
        },
    };
    assert(count >= 4) by (nonlinear_arith)
        requires
            count == width * height,
            width >= 2,
            height >= 2,
    ;
    let bounds = (height, width);
    let mut tiles: Vec<Tile> = Vec::with_capacity(count);
    while tiles.len() < count
        invariant
            tiles@.len() <= count,
            forall|i: int| 0 <= i < tiles@.len() ==> tiles@[i] == Tile::Wall,
        decreases count - tiles@.len(),
    {
        tiles.push(Tile::Wall);
    }
    tiles[0] = Tile::Floor;
    let mut stack: Vec<(usize, usize)> = Vec::new();
    stack.push((0, 0));
    let ghost mut order: Seq<(usize, usize)> = seq![(0usize, 0usize)];
    proof {
        assert(count == bounds.0 * bounds.1) by (nonlinear_arith)
            requires
                count == width * height,
                bounds == (height, width),
        ;
        lemma_carved_start(tiles@, bounds);
        assert(order[0] == stack@[0]);
        lemma_carved_len(order, tiles@, bounds);
    }
    while stack.len() > 0
        invariant
            bounds == (height, width),
            count == bounds.0 * bounds.1,
            carved(order, tiles@, bounds),
            order.len() <= count,
            forall|i: int| 0 <= i < stack@.len() ==> order.contains(#[trigger] stack@[i]),
            forall|i: int|
                0 <= i < order.len() ==> stack@.contains(order[i]) || exhausted(
                    #[trigger] order[i],
                    tiles@,
                    bounds,
                ),
        decreases 2 * (count - order.len()) + stack@.len(),
    {
        let pos = stack[stack.len() - 1];
        proof {
            assert(order.contains(pos));
            let i = choose|i: int| 0 <= i < order.len() && order[i] == pos;
            assert(in_bounds(order[i], bounds));
        }
        let valid = valid_tiles(pos, bounds, tiles.as_slice());
        let choice = pick(rng, valid.as_slice());
        let ghost tiles_before = tiles@;
        let ghost stack_before = stack@;
        proof {
            if let Some(p) = choice {
                spec_adjacent(pos, bounds).lemma_filter_contains_rev(
                    carvable_from(pos, bounds, tiles@),
                    p,
                );
                lemma_adjacent(pos, bounds, p);
            }
        }
        match maze_step(tiles.as_mut_slice(), &mut stack, bounds, choice) {
            Ok(()) => {},
            Err(e) => {
                return Err(e);
            },
        }
        proof {
            match choice {
                Some(p) => {
                    lemma_carve_extends(order, tiles_before, bounds, pos, p);
                    lemma_cell_bound(p, bounds);
                    let grown = order.push(p);
                    assert forall|i: int| 0 <= i < stack@.len() implies grown.contains(
                        #[trigger] stack@[i],
                    ) by {
                        if i < stack_before.len() {
                            let k = choose|k: int|
                                0 <= k < order.len() && order[k] == stack_before[i];
                            assert(grown[k] == stack@[i]);
                        } else {
                            assert(grown[order.len() as int] == stack@[i]);
                        }
                    }
                    assert forall|i: int| 0 <= i < grown.len() implies stack@.contains(grown[i])
                        || exhausted(#[trigger] grown[i], tiles@, bounds) by {
                        if i < order.len() {
                            assert(grown[i] == order[i]);
                            assert(in_bounds(order[i], bounds));
                            if stack_before.contains(order[i]) {
                                let j = choose|j: int|
                                    0 <= j < stack_before.len() && stack_before[j] == order[i];
                                assert(stack@[j] == order[i]);
                            } else {
                                lemma_exhausted_stays(
                                    order[i],
                                    tiles_before,
                                    bounds,
                                    cell(p, bounds.1),
                                );
                            }
                        } else {
                            assert(stack@[stack_before.len() as int] == grown[i]);
                        }
                    }
                    lemma_carved_len(grown, tiles@, bounds);
                    order = grown;
                },
                None => {
                    assert forall|i: int| 0 <= i < order.len() implies stack@.contains(order[i])
                        || exhausted(#[trigger] order[i], tiles@, bounds) by {
                        if stack_before.contains(order[i]) {
                            let j = choose|j: int|
                                0 <= j < stack_before.len() && stack_before[j] == order[i];
                            if j < stack@.len() {
                                assert(stack@[j] == order[i]);
                            }
                        }
                    }
                },
            }
        }
    }
    proof {
        assert forall|p: (usize, usize)|
            in_bounds(p, bounds) && tiles@[cell(p, bounds.1)] == Tile::Floor implies #[trigger]
            exhausted(p, tiles@, bounds) by {
            assert(order.contains(p));
            let i = choose|i: int| 0 <= i < order.len() && order[i] == p;
            assert(stack@.contains(order[i]) || exhausted(order[i], tiles@, bounds));
        }
    }
    assert(is_maze(tiles@, bounds));
    Ok(tiles)
}

/// Whether `path` walks from the corner (0, 0) over floor tiles only, each
/// step going to a touching cell.
pub open spec fn floor_path(path: Seq<(usize, usize)>, tiles: Seq<Tile>, bounds: (usize, usize))
    -> bool {
    &&& path.len() > 0
    &&& path[0] == (0usize, 0usize)
    &&& forall|i: int|
        0 <= i < path.len() ==> in_bounds(#[trigger] path[i], bounds) && tiles[cell(
            path[i],
            bounds.1,
        )] == Tile::Floor
    &&& forall|i: int| 0 <= i < path.len() - 1 ==> touching(#[trigger] path[i], path[i + 1])
}

/// Whether `p` can be reached from the corner (0, 0) over floor tiles.
pub open spec fn reachable(p: (usize, usize), tiles: Seq<Tile>, bounds: (usize, usize)) -> bool {
    exists|path: Seq<(usize, usize)>| #[trigger] floor_path(path, tiles, bounds) && path.last() == p
}

/// Every cell of a carving order can be reached from the corner.
proof fn lemma_carved_reachable(
    order: Seq<(usize, usize)>,
    tiles: Seq<Tile>,
    bounds: (usize, usize),
    j: int,
)
    requires
        carved(order, tiles, bounds),
        0 <= j < order.len(),
    ensures
        reachable(order[j], tiles, bounds),
    decreases j,
{
    assert(order.contains(order[j]));
    assert(in_bounds(order[j], bounds));
    if j == 0 {
        let path = seq![order[0]];
        assert(floor_path(path, tiles, bounds));
        assert(path.last() == order[j]);
    } else {
        assert(has_parent(order, j));
        let i = choose|i: int| #[trigger] sole_parent(order, i, j);
        lemma_carved_reachable(order, tiles, bounds, i);
        let head = choose|path: Seq<(usize, usize)>| #[trigger]
            floor_path(path, tiles, bounds) && path.last() == order[i];
        let path = head.push(order[j]);
        assert forall|k: int| 0 <= k < path.len() implies in_bounds(#[trigger] path[k], bounds)
            && tiles[cell(path[k], bounds.1)] == Tile::Floor by {
            if k < head.len() {
                assert(path[k] == head[k]);
            }
        }
        assert forall|k: int| 0 <= k < path.len() - 1 implies touching(
            #[trigger] path[k],
            path[k + 1],
        ) by {
            assert(path[k] == head[k]);
            if k + 1 < head.len() {
                assert(path[k + 1] == head[k + 1]);
            }
        }
        assert(path[0] == head[0]);
        assert(floor_path(path, tiles, bounds));
        assert(path.last() == order[j]);
    }
}

/// Every floor tile of a maze is connected to the corner (0, 0) through
/// moves between touching floor tiles.
pub proof fn lemma_maze_connected(tiles: Seq<Tile>, bounds: (usize, usize), p: (usize, usize))
    requires
        is_maze(tiles, bounds),
        in_bounds(p, bounds),
        tiles[cell(p, bounds.1)] == Tile::Floor,
    ensures
        reachable(p, tiles, bounds),
{
    let order = choose|order: Seq<(usize, usize)>| carved(order, tiles, bounds);
    assert(order.contains(p));
    let j = choose|j: int| 0 <= j < order.len() && order[j] == p;
    lemma_carved_reachable(order, tiles, bounds, j);
}

/// The index that follows `i` on a closed walk of `len` cells.
pub open spec fn next_on_loop(i: int, len: int) -> int {
    if i + 1 == len {
        0
    } else {
        i + 1
    }
}

/// Whether cell `i` of a closed walk touches the cell that follows it.
pub open spec fn loop_step(cells: Seq<(usize, usize)>, i: int) -> bool {
    touching(cells[i], cells[next_on_loop(i, cells.len() as int)])
}

/// Whether `cells` is a closed walk over floor tiles: at least three
/// different cells, each touching the one after it and the last touching the
/// first.
pub open spec fn floor_loop(cells: Seq<(usize, usize)>, tiles: Seq<Tile>, bounds: (usize, usize))
    -> bool {
    &&& cells.len() >= 3
    &&& cells.no_duplicates()
    &&& forall|i: int|
        0 <= i < cells.len() ==> in_bounds(#[trigger] cells[i], bounds) && tiles[cell(
            cells[i],
            bounds.1,
        )] == Tile::Floor
    &&& forall|i: int| 0 <= i < cells.len() ==> #[trigger] loop_step(cells, i)
}

/// Among the first `n` cells of `cells`, all of them named by `order`, finds
/// the one that `order` names last.
proof fn lemma_latest(order: Seq<(usize, usize)>, cells: Seq<(usize, usize)>, n: int) -> (m: int)
    requires
        1 <= n <= cells.len(),
        forall|i: int| 0 <= i < cells.len() ==> order.contains(#[trigger] cells[i]),
    ensures
        0 <= m < n,
        forall|i: int|
            0 <= i < n ==> order.index_of(#[trigger] cells[i]) <= order.index_of(cells[m]),
    decreases n,
{
    if n == 1 {
        0
    } else {
        let m = lemma_latest(order, cells, n - 1);
        if order.index_of(cells[n - 1]) > order.index_of(cells[m]) {
            n - 1
        } else {
            m
        }
    }
}

/// The corridors of a maze never merge: no closed walk leads over floor
/// tiles, so two stretches of corridor touch only where one continues the
/// other.
pub proof fn lemma_maze_has_no_loop(
    tiles: Seq<Tile>,
    bounds: (usize, usize),
    cells: Seq<(usize, usize)>,
)
    requires
        is_maze(tiles, bounds),
    ensures
        !floor_loop(cells, tiles, bounds),
{
    if floor_loop(cells, tiles, bounds) {
        let order = choose|order: Seq<(usize, usize)>| carved(order, tiles, bounds);
        let n = cells.len() as int;
        assert forall|i: int| 0 <= i < n implies order.contains(#[trigger] cells[i]) by {
            assert(in_bounds(cells[i], bounds));
        }
        let m = lemma_latest(order, cells, n);
        let after = next_on_loop(m, n);
        let before = if m == 0 {
            n - 1
        } else {
            m - 1
        };
        let j = order.index_of(cells[m]);
        let a = order.index_of(cells[after]);
        let b = order.index_of(cells[before]);
        assert(order.contains(cells[m]) && order.contains(cells[after]) && order.contains(
            cells[before],
        ));
        assert(touching(order[j], order[a])) by {
            assert(loop_step(cells, m));
        }
        assert(touching(order[b], order[j])) by {
            assert(loop_step(cells, before));
        }
        assert(a <= j && b <= j);
        lemma_two_parents(order, j, a, b);
        assert(cells[after] == cells[before]);
        assert(after != before);
    }
}

/// Two cells that touch a cell of a carving order and come no later in it
/// are one cell.
proof fn lemma_two_parents(order: Seq<(usize, usize)>, j: int, a: int, b: int)
    requires
        0 <= a <= j < order.len(),
        0 <= b <= j,
        touching(order[j], order[a]),
        touching(order[b], order[j]),
        forall|k: int| 1 <= k < order.len() ==> #[trigger] has_parent(order, k),
    ensures
        a == b,
{
    assert(a < j && b < j);
    assert(has_parent(order, j));
    let i = choose|i: int| #[trigger] sole_parent(order, i, j);
    if a != i {
        assert(!touching(order[a], order[j]));
    } else if b != i {
        assert(!touching(order[b], order[j]));
    }
}

/// No two corridors of a maze run side by side: of every square of four
/// tiles at least one is a wall.
pub proof fn lemma_maze_has_no_hall(tiles: Seq<Tile>, bounds: (usize, usize), r: usize, c: usize)
    requires
        is_maze(tiles, bounds),
        r + 1 < bounds.0,
        c + 1 < bounds.1,
    ensures
        !(tiles[cell((r, c), bounds.1)] == Tile::Floor && tiles[cell(
            (r, (c + 1) as usize),
            bounds.1,
        )] == Tile::Floor && tiles[cell(((r + 1) as usize, c), bounds.1)] == Tile::Floor
            && tiles[cell(((r + 1) as usize, (c + 1) as usize), bounds.1)] == Tile::Floor),
{
    let cells = seq![
        (r, c),
        (r, (c + 1) as usize),
        ((r + 1) as usize, (c + 1) as usize),
        ((r + 1) as usize, c),
    ];
    lemma_maze_has_no_loop(tiles, bounds, cells);
    assert(cells[0] == (r, c));
    assert(cells[1] == (r, (c + 1) as usize));
    assert(cells[2] == ((r + 1) as usize, (c + 1) as usize));
    assert(cells[3] == ((r + 1) as usize, c));
    assert(cells.no_duplicates());
    assert(next_on_loop(3, 4) == 0);
}

} // verus!
