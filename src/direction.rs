//! Compass directions over a row-major grid, and the index arithmetic that
//! goes with them.
use vstd::prelude::*;

verus! {

/// A compass direction, or `Center` for the cell itself.
#[derive(Clone, Copy, Debug, PartialEq, Eq, Structural)]
pub enum Direction {
    Topleft,
    Top,
    Topright,
    Left,
    Center,
    Right,
    Bottomleft,
    Bottom,
    Bottomright,
}

/// The neighbour set that the flood fill looks at.
#[derive(Clone, Copy, Debug, PartialEq, Eq, Structural)]
pub enum Topology {
    /// The four orthogonal neighbours (and the cell itself).
    FourWay,
    /// All eight neighbours (and the cell itself).
    EightWay,
}

/// The index reached from `index` by one step in direction `d`, on a
/// row-major grid `w` cells wide.
pub open spec fn neighbor(index: int, d: Direction, w: int) -> int {
    match d {
        Direction::Topleft => index - w - 1,
        Direction::Top => index - w,
        Direction::Topright => index - w + 1,
        Direction::Left => index - 1,
        Direction::Center => index,
        Direction::Right => index + 1,
        Direction::Bottomleft => index + w - 1,
        Direction::Bottom => index + w,
        Direction::Bottomright => index + w + 1,
    }
}

/// The direction turned by half a circle; `Center` stays `Center`.
pub open spec fn reverse(d: Direction) -> Direction {
    match d {
        Direction::Topleft => Direction::Bottomright,
        Direction::Top => Direction::Bottom,
        Direction::Topright => Direction::Bottomleft,
        Direction::Left => Direction::Right,
        Direction::Center => Direction::Center,
        Direction::Right => Direction::Left,
        Direction::Bottomleft => Direction::Topright,
        Direction::Bottom => Direction::Top,
        Direction::Bottomright => Direction::Topleft,
    }
}

/// The directions visited by the flood fill, in the order it visits them.
pub open spec fn topology_dirs(t: Topology) -> Seq<Direction> {
    match t {
        Topology::FourWay => seq![
            Direction::Top,
            Direction::Left,
            Direction::Center,
            Direction::Right,
            Direction::Bottom,
        ],
        Topology::EightWay => seq![
            Direction::Topleft,
            Direction::Top,
            Direction::Topright,
            Direction::Left,
            Direction::Center,
            Direction::Right,
            Direction::Bottomleft,
            Direction::Bottom,
            Direction::Bottomright,
        ],
    }
}

/// A cell that is neither on the outer ring nor outside a `w` by `h` grid.
#[verifier::opaque]
pub open spec fn is_interior(i: int, w: int, h: int) -> bool {
    &&& 0 <= i < w * h
    &&& 1 <= i % w <= w - 2
    &&& 1 <= i / w <= h - 2
}

/// Reversing a direction twice gives it back.
pub proof fn lemma_reverse_involution(d: Direction)
    ensures
        reverse(reverse(d)) == d,
{
}

/// Stepping in a direction and then in its reverse comes back to the start.
pub proof fn lemma_neighbor_reverse(i: int, d: Direction, w: int)
    ensures
        neighbor(neighbor(i, d, w), reverse(d), w) == i,
{
}

/// Every neighbour of an interior cell lies inside the grid.
pub proof fn lemma_interior_bounds(i: int, w: int, h: int)
    requires
        w >= 3,
        is_interior(i, w, h),
    ensures
        w + 1 <= i,
        i + w + 1 < w * h,
        forall|d: Direction| 0 <= #[trigger] neighbor(i, d, w) < w * h,
{
    reveal(is_interior);
    let q = i / w;
    let r = i % w;
    vstd::arithmetic::div_mod::lemma_fundamental_div_mod(i, w);
    assert(i == w * q + r);
    assert(w * q >= w) by (nonlinear_arith)
        requires
            q >= 1,
            w >= 3,
    ;
    assert(w * q <= w * h - 2 * w) by (nonlinear_arith)
        requires
            q <= h - 2,
            w >= 3,
    ;
}

/// The cell at column `x` and row `y` of a grid `w` cells wide has index
/// `y * w + x`, and that index gives the column and row back.
pub proof fn lemma_coords(x: int, y: int, w: int)
    requires
        0 <= x < w,
        0 <= y,
    ensures
        (y * w + x) % w == x,
        (y * w + x) / w == y,
{
    vstd::arithmetic::div_mod::lemma_fundamental_div_mod_converse(y * w + x, w, y, x);
}

/// The index `direction` leads to from `index`; the grid is `width` cells wide.
pub fn find_target_index(index: usize, direction: Direction, width: usize) -> (r: usize)
    requires
        index >= width + 1,
        index + width + 1 <= usize::MAX,
    ensures
        r == neighbor(index as int, direction, width as int),
{
    match direction {
        Direction::Topleft => index - width - 1,
        Direction::Top => index - width,
        Direction::Topright => index - width + 1,
        Direction::Left => index - 1,
        Direction::Center => index,
        Direction::Right => index + 1,
        Direction::Bottomleft => index + width - 1,
        Direction::Bottom => index + width,
        Direction::Bottomright => index + width + 1,
    }
}

/// The direction opposite to `direction`.
pub fn reverse_direction(direction: Direction) -> (r: Direction)
    ensures
        r == reverse(direction),
{
    match direction {
        Direction::Topleft => Direction::Bottomright,
        Direction::Top => Direction::Bottom,
        Direction::Topright => Direction::Bottomleft,
        Direction::Left => Direction::Right,
        Direction::Center => Direction::Center,
        Direction::Right => Direction::Left,
        Direction::Bottomleft => Direction::Topright,
        Direction::Bottom => Direction::Top,
        Direction::Bottomright => Direction::Topleft,
    }
}

/// The directions of a topology, in the order the flood fill visits them.
pub fn directions(topology: Topology) -> (r: Vec<Direction>)
    ensures
        r@ == topology_dirs(topology),
{
    let r = match topology {
        Topology::FourWay => vec![
            Direction::Top,
            Direction::Left,
            Direction::Center,
            Direction::Right,
            Direction::Bottom,
        ],
        Topology::EightWay => vec![
            Direction::Topleft,
            Direction::Top,
            Direction::Topright,
            Direction::Left,
            Direction::Center,
            Direction::Right,
            Direction::Bottomleft,
            Direction::Bottom,
            Direction::Bottomright,
        ],
    };
    assert(r@ =~= topology_dirs(topology));
    r
}

} // verus!
