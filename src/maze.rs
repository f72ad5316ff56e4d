//! Sidewinder maze generation over the lattice of odd-coordinate rooms.
use crate::cell::CellState;
use crate::direction::{is_interior, lemma_coords};
use rand::Rng;
use vstd::prelude::*;

verus! {

/// A column and row of the grid.
#[derive(Clone, Copy, Debug, PartialEq, Eq, Structural)]
pub struct Point {
    pub x: usize,
    pub y: usize,
}

/// Grid sizes the generator and the automaton accept: at least 3 by 3, not
/// exactly 3 by 3 (there the seed would fall on the end), and few enough
/// cells to index with `usize`.
pub open spec fn valid_dims(w: int, h: int) -> bool {
    &&& w >= 3
    &&& h >= 3
    &&& !(w == 3 && h == 3)
    &&& w * h <= usize::MAX
}

/// A room: a cell at odd column and odd row, off the outer ring.
pub open spec fn is_room(x: int, y: int, w: int, h: int) -> bool {
    &&& x % 2 == 1
    &&& y % 2 == 1
    &&& 1 <= x <= w - 2
    &&& 1 <= y <= h - 2
}

/// A cell between two rooms that are side by side or one above the other.
pub open spec fn is_link(x: int, y: int, w: int, h: int) -> bool {
    ||| (is_room(x - 1, y, w, h) && is_room(x + 1, y, w, h))
    ||| (is_room(x, y - 1, w, h) && is_room(x, y + 1, w, h))
}

/// The fixed place of the start cell: the last column of row 1.
pub open spec fn start_index(w: int) -> int {
    2 * w - 1
}

/// The fixed place of the end cell: column 1 of the last interior row.
pub open spec fn end_index(w: int, h: int) -> int {
    (h - 2) * w + 1
}

/// Every cell is a wall, or a passage at a room or a link.
pub open spec fn carved_only(g: Seq<CellState>, w: int, h: int) -> bool {
    forall|i: int|
        0 <= i < g.len() ==> #[trigger] g[i] == CellState::Wall || (g[i] == CellState::Passage && (
        is_room(i % w, i / w, w, h) || is_link(i % w, i / w, w, h)))
}

/// A passage, or the end that took a passage's place.
pub open spec fn open_cell(s: CellState) -> bool {
    s == CellState::Passage || s == CellState::End
}

/// Cells `a..=b` of row `y` are all open.
pub open spec fn row_open(g: Seq<CellState>, a: int, b: int, y: int, w: int) -> bool {
    forall|x: int| a <= x <= b ==> open_cell(#[trigger] g[y * w + x])
}

/// Room `(x, y)` lies on an open stretch of its row, and from some cell of
/// that stretch the cell just north is open too.
pub open spec fn joined_north(g: Seq<CellState>, x: int, y: int, w: int) -> bool {
    exists|a: int, b: int, c: int|
        #![trigger row_open(g, a, b, y, w), g[(y - 1) * w + c]]
        1 <= a <= x && x <= b <= w - 2 && a <= c <= b && row_open(g, a, b, y, w) && open_cell(
            g[(y - 1) * w + c],
        )
}

/// How the rooms of a generated maze hang together: the top row of rooms
/// is one open corridor, and every room below it is joined north.
pub open spec fn rooms_joined(g: Seq<CellState>, w: int, h: int) -> bool {
    &&& forall|x: int| is_room(x, 1, w, h) ==> #[trigger] row_open(g, 1, x, 1, w)
    &&& forall|x: int, y: int| is_room(x, y, w, h) && y >= 3 ==> #[trigger] joined_north(g, x, y, w)
}

/// One step along a row or a column, as indices of a grid `w` cells wide.
pub open spec fn grid_step(i: int, j: int, w: int) -> bool {
    j == i + 1 || j == i - 1 || j == i + w || j == i - w
}

/// `p` is a walk over open cells of `g`: each index lies in the grid, holds
/// an open cell, and is one step from the one before.
pub open spec fn is_open_walk(g: Seq<CellState>, p: Seq<int>, w: int) -> bool {
    &&& p.len() >= 1
    &&& forall|k: int| 0 <= k < p.len() ==> 0 <= #[trigger] p[k] < g.len() && open_cell(g[p[k]])
    &&& forall|k: int| 0 <= k < p.len() - 1 ==> grid_step(#[trigger] p[k], p[k + 1], w)
}

/// Every open cell of `g1` is open in `g2`.
pub open spec fn stays_open(g1: Seq<CellState>, g2: Seq<CellState>) -> bool {
    &&& g1.len() == g2.len()
    &&& forall|i: int| 0 <= i < g1.len() && open_cell(g1[i]) ==> open_cell(#[trigger] g2[i])
}

/// What the generator hands back: a `w` by `h` grid with one start and one
/// end at their fixed places, every room carved (but where the end stands),
/// and every other cell a wall or a passage that is a room or a link.
pub open spec fn is_generated_maze(g: Seq<CellState>, w: int, h: int) -> bool {
    &&& g.len() == w * h
    &&& forall|i: int| 0 <= i < g.len() ==> (#[trigger] g[i] == CellState::Start <==> i == start_index(w))
    &&& forall|i: int| 0 <= i < g.len() ==> (#[trigger] g[i] == CellState::End <==> i == end_index(w, h))
    &&& forall|i: int|
        0 <= i < g.len() && #[trigger] g[i] != CellState::Start && g[i] != CellState::End ==> (g[i]
            == CellState::Wall || (g[i] == CellState::Passage && (is_room(i % w, i / w, w, h)
            || is_link(i % w, i / w, w, h))))
    &&& forall|x: int, y: int|
        is_room(x, y, w, h) && y * w + x != end_index(w, h) ==> #[trigger] g[y * w + x]
            == CellState::Passage
}

proof fn lemma_index_in_grid(x: int, y: int, w: int, h: int)
    requires
        0 <= x < w,
        0 <= y < h,
    ensures
        0 <= y * w + x < w * h,
{
    assert(0 <= y * w + x < w * h) by (nonlinear_arith)
        requires
            0 <= x < w,
            0 <= y < h,
    ;
}

/// Relies on rand's `thread_rng().gen_range(0..n)`: a value in `0..n`
/// (it panics only on an empty range, which `n > 0` excludes).
#[verifier::external_body]
fn random_below(n: usize) -> (r: usize)
    requires
        n > 0,
    ensures
        r < n,
{
    rand::thread_rng().gen_range(0..n)
}

/// Relies on rand's `thread_rng().gen::<bool>()`: a fair coin; nothing is
/// known of the outcome.
#[verifier::external_body]
fn random_coin() -> (r: bool) {
    rand::thread_rng().gen::<bool>()
}

/// The row-major index of a point on a grid `width` cells wide.
pub fn f2d_to_1d(p: Point, width: usize) -> (r: usize)
    requires
        p.y * width + p.x <= usize::MAX,
    ensures
        r == p.y * width + p.x,
{
    p.y * width + p.x
}

/// Carves the cell at `point` into a passage.
pub fn set_maze_point(maze: &mut Vec<CellState>, point: Point, width: usize)
    requires
        point.y * width + point.x < old(maze)@.len(),
    ensures
        final(maze)@ == old(maze)@.update(point.y * width + point.x, CellState::Passage),
{
    let n = maze.len();
    assert(point.y * width + point.x < n);
    let i = f2d_to_1d(point, width);
    maze.set(i, CellState::Passage);
}

/// In a generated maze every cell of the outer ring is a wall, except the
/// start, which is placed on the ring.
pub proof fn lemma_generated_ring_is_wall(g: Seq<CellState>, w: int, h: int)
    requires
        valid_dims(w, h),
        is_generated_maze(g, w, h),
    ensures
        forall|i: int|
            0 <= i < g.len() && !is_interior(i, w, h) && i != start_index(w) ==> #[trigger] g[i]
                == CellState::Wall,
{
    reveal(is_interior);
    lemma_coords(1, h - 2, w);
    lemma_index_in_grid(1, h - 2, w, h);
}

proof fn lemma_stays_open(g1: Seq<CellState>, g2: Seq<CellState>, w: int, h: int)
    requires
        w >= 3,
        h >= 3,
        g1.len() == w * h,
        stays_open(g1, g2),
    ensures
        forall|a: int, b: int, y: int|
            0 <= y < h && 0 <= a && b < w && #[trigger] row_open(g1, a, b, y, w) ==> row_open(
                g2,
                a,
                b,
                y,
                w,
            ),
        forall|x: int, y: int|
            is_room(x, y, w, h) && y >= 3 && #[trigger] joined_north(g1, x, y, w) ==> joined_north(
                g2,
                x,
                y,
                w,
            ),
{
    assert forall|a: int, b: int, y: int|
        0 <= y < h && 0 <= a && b < w && #[trigger] row_open(g1, a, b, y, w) implies row_open(
            g2,
            a,
            b,
            y,
            w,
        ) by {
        assert forall|x: int| a <= x <= b implies open_cell(#[trigger] g2[y * w + x]) by {
            lemma_index_in_grid(x, y, w, h);
            assert(open_cell(g1[y * w + x]));
        }
    }
    assert forall|x: int, y: int|
        is_room(x, y, w, h) && y >= 3 && #[trigger] joined_north(g1, x, y, w) implies joined_north(
            g2,
            x,
            y,
            w,
        ) by {
        let (a, b, c) = choose|a: int, b: int, c: int|
            #![trigger row_open(g1, a, b, y, w), g1[(y - 1) * w + c]]
            1 <= a <= x && x <= b <= w - 2 && a <= c <= b && row_open(g1, a, b, y, w) && open_cell(
                g1[(y - 1) * w + c],
            );
        lemma_index_in_grid(c, y - 1, w, h);
        assert(row_open(g2, a, b, y, w));
        assert(open_cell(g2[(y - 1) * w + c]));
    }
}

proof fn lemma_walk_concat(g: Seq<CellState>, p: Seq<int>, q: Seq<int>, w: int)
    requires
        is_open_walk(g, p, w),
        is_open_walk(g, q, w),
        grid_step(p.last(), q[0], w),
    ensures
        is_open_walk(g, p + q, w),
        (p + q)[0] == p[0],
        (p + q).last() == q.last(),
{
    let r = p + q;
    assert forall|k: int| 0 <= k < r.len() - 1 implies grid_step(#[trigger] r[k], r[k + 1], w) by {
        if k < p.len() - 1 {
            assert(r[k] == p[k] && r[k + 1] == p[k + 1]);
        } else if k == p.len() - 1 {
        } else {
            assert(r[k] == q[k - p.len()] && r[k + 1] == q[k - p.len() + 1]);
        }
    }
    assert forall|k: int| 0 <= k < r.len() implies 0 <= #[trigger] r[k] < g.len() && open_cell(g[r[k]]) by {
        if k < p.len() {
            assert(r[k] == p[k]);
        } else {
            assert(r[k] == q[k - p.len()]);
        }
    }
}

/// A walk along row `y` from column `x1` to column `x2`, over open cells.
proof fn walk_along_row(g: Seq<CellState>, y: int, x1: int, x2: int, w: int, h: int) -> (p: Seq<
    int,
>)
    requires
        g.len() == w * h,
        0 <= y < h,
        0 <= x1 < w,
        0 <= x2 < w,
        x1 <= x2 ==> row_open(g, x1, x2, y, w),
        x2 < x1 ==> row_open(g, x2, x1, y, w),
    ensures
        is_open_walk(g, p, w),
        p[0] == y * w + x1,
        p.last() == y * w + x2,
{
    let p = if x1 <= x2 {
        Seq::new((x2 - x1 + 1) as nat, |k: int| y * w + x1 + k)
    } else {
        Seq::new((x1 - x2 + 1) as nat, |k: int| y * w + x1 - k)
    };
    assert forall|k: int| 0 <= k < p.len() implies 0 <= #[trigger] p[k] < g.len() && open_cell(g[p[k]]) by {
        if x1 <= x2 {
            lemma_index_in_grid(x1 + k, y, w, h);
            assert(p[k] == y * w + (x1 + k));
        } else {
            lemma_index_in_grid(x1 - k, y, w, h);
            assert(p[k] == y * w + (x1 - k));
        }
    }
    assert forall|k: int| 0 <= k < p.len() - 1 implies grid_step(#[trigger] p[k], p[k + 1], w) by {
    }
    p
}

/// A walk over open cells from room `(x, y)` of a generated maze to the
/// top-left room.
proof fn walk_to_corner(g: Seq<CellState>, x: int, y: int, w: int, h: int) -> (p: Seq<int>)
    requires
        valid_dims(w, h),
        is_generated_maze(g, w, h),
        rooms_joined(g, w, h),
        is_room(x, y, w, h),
    ensures
        is_open_walk(g, p, w),
        p[0] == y * w + x,
        p.last() == w + 1,
    decreases y,
{
    lemma_coords(1, 1, w);
    assert(row_open(g, 1, x, 1, w) || y >= 3);
    if y == 1 {
        assert(row_open(g, 1, x, 1, w));
        walk_along_row(g, 1, x, 1, w, h)
    } else {
        assert(joined_north(g, x, y, w));
        let (a, b, c) = choose|a: int, b: int, c: int|
            #![trigger row_open(g, a, b, y, w), g[(y - 1) * w + c]]
            1 <= a <= x && x <= b <= w - 2 && a <= c <= b && row_open(g, a, b, y, w) && open_cell(
                g[(y - 1) * w + c],
            );
        let n = (y - 1) * w + c;
        lemma_coords(c, y - 1, w);
        lemma_index_in_grid(c, y - 1, w, h);
        lemma_coords(1, h - 2, w);
        lemma_coords(w - 1, 1, w);
        // The open cell north of the stretch links two rooms of a column.
        assert(g[n] != CellState::End);
        assert(g[n] != CellState::Start);
        assert(is_room(c, y - 2, w, h));
        let p1 = if x <= c {
            assert(row_open(g, x, c, y, w));
            walk_along_row(g, y, x, c, w, h)
        } else {
            assert(row_open(g, c, x, y, w));
            walk_along_row(g, y, x, c, w, h)
        };
        let p2 = seq![n];
        assert(is_open_walk(g, p2, w));
        assert(n == y * w + c - w) by (nonlinear_arith)
            requires
                n == (y - 1) * w + c,
        ;
        lemma_walk_concat(g, p1, p2, w);
        let p3 = walk_to_corner(g, c, y - 2, w, h);
        assert(p3[0] == (y - 2) * w + c);
        assert((y - 2) * w + c == n - w) by (nonlinear_arith)
            requires
                n == (y - 1) * w + c,
        ;
        lemma_walk_concat(g, p1 + p2, p3, w);
        p1 + p2 + p3
    }
}

/// In a generated maze every room is joined to the top-left room by a walk
/// over open cells, each a step along a row or a column from the one before.
pub proof fn lemma_generated_rooms_reach_corner(g: Seq<CellState>, w: int, h: int, x: int, y: int)
    requires
        valid_dims(w, h),
        is_generated_maze(g, w, h),
        rooms_joined(g, w, h),
        is_room(x, y, w, h),
    ensures
        exists|p: Seq<int>| is_open_walk(g, p, w) && p[0] == y * w + x && p.last() == w + 1,
{
    let p = walk_to_corner(g, x, y, w, h);
    assert(is_open_walk(g, p, w) && p[0] == y * w + x && p.last() == w + 1);
}

/// Carving a room or a link into a passage keeps the grid carved as the
/// generator carves it.
proof fn lemma_carve_keeps(g: Seq<CellState>, x: int, y: int, w: int, h: int)
    requires
        g.len() == w * h,
        carved_only(g, w, h),
        0 <= x < w,
        0 <= y < h,
        is_room(x, y, w, h) || is_link(x, y, w, h),
    ensures
        0 <= y * w + x < w * h,
        carved_only(g.update(y * w + x, CellState::Passage), w, h),
{
    lemma_index_in_grid(x, y, w, h);
    lemma_coords(x, y, w);
}

/// Generates a maze with the sidewinder algorithm: rows are processed from
/// the bottom interior row upward, rooms left to right; each room is carved
/// and joins the current run, which is closed either at the row's end or
/// by a coin flip, by carving north from a random room of the run. The top
/// row becomes one corridor. The end is then placed at column 1 of the
/// last interior row and the start at the last column of row 1.
pub fn sidewinder(width: usize, height: usize) -> (r: Vec<CellState>)
    requires
        valid_dims(width as int, height as int),
    ensures
        is_generated_maze(r@, width as int, height as int),
        rooms_joined(r@, width as int, height as int),
{
    let w = width;
    let h = height;
    let ghost wi = w as int;
    let ghost hi = h as int;
    let total = w * h;
    let mut maze: Vec<CellState> = Vec::new();
    let mut i: usize = 0;
    while i < total
        invariant
            maze@.len() == i,
            i <= total,
            forall|j: int| 0 <= j < i ==> maze@[j] == CellState::Wall,
        decreases total - i,
    {
        maze.push(CellState::Wall);
        i = i + 1;
    }
    assert(w + 4 <= usize::MAX) by (nonlinear_arith)
        requires
            w * h <= usize::MAX,
            h >= 3,
    ;
    let top: usize = if (h - 2) % 2 == 1 {
        h - 2
    } else {
        h - 3
    };
    let mut y: usize = top + 2;
    let mut run: Vec<Point> = Vec::new();
    while y > 1
        invariant
            valid_dims(wi, hi),
            w + 4 <= usize::MAX,
            wi == w,
            hi == h,
            total == w * h,
            top % 2 == 1,
            1 <= top <= h - 2,
            y % 2 == 1,
            1 <= y <= top + 2,
            maze@.len() == total,
            carved_only(maze@, wi, hi),
            forall|rx: int, ry: int|
                is_room(rx, ry, wi, hi) && ry >= y ==> #[trigger] maze@[ry * wi + rx]
                    == CellState::Passage,
            forall|rx: int, ry: int|
                is_room(rx, ry, wi, hi) && ry >= y && ry >= 3 ==> #[trigger] joined_north(
                    maze@,
                    rx,
                    ry,
                    wi,
                ),
            y == 1 ==> forall|rx: int| is_room(rx, 1, wi, hi) ==> #[trigger] row_open(maze@, 1, rx, 1, wi),
        decreases y,
    {
        y = y - 2;
        run = Vec::new();
        let ghost mut run_start: int = 1;
        let mut x: usize = 1;
        while x + 1 < w
            invariant
                valid_dims(wi, hi),
                w + 4 <= usize::MAX,
                wi == w,
                hi == h,
                total == w * h,
                y % 2 == 1,
                1 <= y <= h - 2,
                x % 2 == 1,
                1 <= x <= w,
                maze@.len() == total,
                carved_only(maze@, wi, hi),
                forall|rx: int, ry: int|
                    is_room(rx, ry, wi, hi) && (ry > y || (ry == y && rx < x)) ==> #[trigger] maze@[ry
                        * wi + rx] == CellState::Passage,
                forall|k: int|
                    0 <= k < run@.len() ==> (#[trigger] run@[k]).y == y && is_room(
                        run@[k].x as int,
                        y as int,
                        wi,
                        hi,
                    ) && run@[k].x < x && run@[k].x == run_start + 2 * k,
                run@.len() > 0 ==> {
                    &&& 1 <= run_start
                    &&& run_start + 2 * (run@.len() - 1) == x - 2
                    &&& row_open(maze@, run_start, x - 1, y as int, wi)
                },
                x + 1 >= w ==> run@.len() == 0,
                y == 1 && x + 1 < w ==> (x == 1 || (run@.len() > 0 && run_start == 1)),
                y == 1 ==> row_open(maze@, 1, x - 2, 1, wi),
                forall|rx: int, ry: int|
                    is_room(rx, ry, wi, hi) && ry >= 3 && (ry > y || (ry == y && rx < x && (
                    run@.len() == 0 || rx < run_start))) ==> #[trigger] joined_north(
                        maze@,
                        rx,
                        ry,
                        wi,
                    ),
            decreases w - x,
        {
            let ghost before = maze@;
            let ghost old_start = run_start;
            let ghost old_len = run@.len();
            proof {
                lemma_carve_keeps(maze@, x as int, y as int, wi, hi);
                if run@.len() == 0 {
                    run_start = x as int;
                }
            }
            set_maze_point(&mut maze, Point { x, y }, w);
            let ghost carved_room = maze@;
            let ghost mut closed_at: int = -1;
            let far_east: bool = x + 4 > w;
            let far_north: bool = y == 1;
            if far_east && far_north {
                run = Vec::new();
            } else {
                run.push(Point { x, y });
                if far_east {
                    let c = run[random_below(run.len())];
                    proof {
                        lemma_carve_keeps(maze@, c.x as int, y - 1, wi, hi);
                        closed_at = c.x as int;
                    }
                    set_maze_point(&mut maze, Point { x: c.x, y: c.y - 1 }, w);
                    run = Vec::new();
                } else if far_north || random_coin() {
                    proof {
                        lemma_carve_keeps(maze@, x + 1, y as int, wi, hi);
                    }
                    set_maze_point(&mut maze, Point { x: x + 1, y }, w);
                } else {
                    let c = run[random_below(run.len())];
                    proof {
                        lemma_carve_keeps(maze@, c.x as int, y - 1, wi, hi);
                        closed_at = c.x as int;
                    }
                    set_maze_point(&mut maze, Point { x: c.x, y: c.y - 1 }, w);
                    run = Vec::new();
                }
            }
            proof {
                assert forall|rx: int, ry: int|
                    is_room(rx, ry, wi, hi) && (ry > y || (ry == y && rx < x + 2)) implies #[trigger] maze@[ry
                        * wi + rx] == CellState::Passage by {
                    lemma_index_in_grid(rx, ry, wi, hi);
                    if ry > y || rx < x {
                        assert(before[ry * wi + rx] == CellState::Passage);
                    }
                    assert(carved_room[ry * wi + rx] == CellState::Passage);
                }
                assert(stays_open(before, maze@));
                lemma_stays_open(before, maze@, wi, hi);
                lemma_index_in_grid(x as int, y as int, wi, hi);
                assert(open_cell(maze@[y * wi + x]));
                // The stretch from the run's first room up to this room is open.
                assert(row_open(maze@, run_start, x as int, y as int, wi)) by {
                    if old_len > 0 {
                        assert(row_open(before, run_start, x - 1, y as int, wi));
                        assert(row_open(maze@, run_start, x - 1, y as int, wi));
                    }
                }
                if closed_at >= 0 {
                    lemma_index_in_grid(closed_at, y - 1, wi, hi);
                    assert forall|rx: int, ry: int|
                        is_room(rx, ry, wi, hi) && ry >= 3 && ry == y && run_start <= rx <= x implies #[trigger] joined_north(
                            maze@,
                            rx,
                            ry,
                            wi,
                        ) by {
                        assert(row_open(maze@, run_start, x as int, y as int, wi));
                        assert(open_cell(maze@[(ry - 1) * wi + closed_at]));
                    }
                }
                if y == 1 {
                    assert(row_open(maze@, 1, x as int, 1, wi)) by {
                        if x > 1 {
                            assert(row_open(before, 1, x - 1, 1, wi));
                            assert(row_open(maze@, 1, x - 1, 1, wi));
                        }
                    }
                }
                if run@.len() > 0 {
                    lemma_index_in_grid(x + 1, y as int, wi, hi);
                    assert(row_open(maze@, run_start, x + 1, y as int, wi));
                }
                assert forall|rx: int, ry: int|
                    is_room(rx, ry, wi, hi) && ry >= 3 && (ry > y || (ry == y && rx < x + 2 && (
                    run@.len() == 0 || rx < run_start))) implies #[trigger] joined_north(
                        maze@,
                        rx,
                        ry,
                        wi,
                    ) by {
                    if ry > y || rx < x && (old_len == 0 || rx < old_start) {
                        assert(joined_north(before, rx, ry, wi));
                    }
                }
            }
            x = x + 2;
        }
    }
    let ghost carved = maze@;
    proof {
        lemma_coords(1, hi - 2, wi);
        lemma_coords(wi - 1, 1, wi);
        lemma_index_in_grid(1, hi - 2, wi, hi);
        lemma_index_in_grid(wi - 1, 1, wi, hi);
    }
    let end_i = f2d_to_1d(Point { x: 1, y: h - 2 }, w);
    maze.set(end_i, CellState::End);
    maze.set(2 * w - 1, CellState::Start);
    proof {
        assert forall|x: int, y: int|
            is_room(x, y, wi, hi) && y * wi + x != end_index(wi, hi) implies #[trigger] maze@[y * wi
                + x] == CellState::Passage by {
            lemma_coords(x, y, wi);
            lemma_index_in_grid(x, y, wi, hi);
            assert(carved[y * wi + x] == CellState::Passage);
        }
        assert(!open_cell(carved[2 * wi - 1]));
        assert(stays_open(carved, maze@));
        lemma_stays_open(carved, maze@, wi, hi);
        assert forall|x: int| is_room(x, 1, wi, hi) implies #[trigger] row_open(maze@, 1, x, 1, wi) by {
            assert(row_open(carved, 1, x, 1, wi));
        }
        assert forall|x: int, y: int| is_room(x, y, wi, hi) && y >= 3 implies #[trigger] joined_north(
            maze@,
            x,
            y,
            wi,
        ) by {
            assert(joined_north(carved, x, y, wi));
        }
    }
    maze
}

} // verus!
