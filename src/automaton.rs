//! The flood-fill automaton.
//!
//! One tick scans the cells that were active when the tick began, in
//! row-major order, and applies each one's rule to a single shared grid in
//! place. A rule applied later in the tick therefore sees what earlier rules
//! of the same tick wrote. This same-tick cascade is kept on purpose: it
//! gives the propagation its shape. Each scanned cell's own state and parent
//! come from the start of the tick; every neighbour is read as it is now.
use crate::cell::{color_of, display_color, is_active, is_open, Cell, CellState};
use crate::direction::{
    directions, find_target_index, is_interior, lemma_coords, lemma_interior_bounds,
    lemma_neighbor_reverse, neighbor, reverse, reverse_direction, topology_dirs, Direction,
    Topology,
};
use crate::maze::{is_generated_maze, start_index, valid_dims};
use vstd::prelude::*;

verus! {

/// The automaton's fixed settings.
#[derive(Clone, Copy, Debug, PartialEq, Eq, Structural)]
pub struct Config {
    pub width: usize,
    pub height: usize,
    pub topology: Topology,
    /// When set, a traced cell is never promoted to the finished path.
    pub quick_mode: bool,
}

/// Why a configuration is refused.
#[derive(Clone, Copy, Debug, PartialEq, Eq, Structural)]
pub enum ConfigError {
    /// Width or height under 3.
    TooSmall,
    /// More cells than `usize` can index.
    TooLarge,
    /// A 3 by 3 grid, where the seed cell would be the end cell.
    SeedOnEnd,
}

/// Why a grid is refused by the automaton.
#[derive(Clone, Copy, Debug, PartialEq, Eq, Structural)]
pub enum GridError {
    /// The number of cells is not width times height.
    WrongLength,
    /// A passage or an active cell stands on the outer ring.
    OpenBorder,
}

impl Config {
    /// The settings the generator and the automaton accept.
    pub open spec fn valid(&self) -> bool {
        valid_dims(self.width as int, self.height as int)
    }

    /// Checks the grid size and builds a configuration.
    pub fn new(width: usize, height: usize, topology: Topology, quick_mode: bool) -> (r: Result<
        Config,
        ConfigError,
    >)
        ensures
            r == Err::<Config, ConfigError>(ConfigError::TooSmall) <==> (width < 3 || height < 3),
            r == Err::<Config, ConfigError>(ConfigError::TooLarge) <==> (width >= 3 && height >= 3
                && width * height > usize::MAX),
            r == Err::<Config, ConfigError>(ConfigError::SeedOnEnd) <==> (width == 3 && height
                == 3),
            r is Ok <==> valid_dims(width as int, height as int),
            r matches Ok(c) ==> (c == Config { width, height, topology, quick_mode }),
    {
        if width < 3 || height < 3 {
            return Err(ConfigError::TooSmall);
        }
        if width.checked_mul(height).is_none() {
            return Err(ConfigError::TooLarge);
        }
        if width == 3 && height == 3 {
            return Err(ConfigError::SeedOnEnd);
        }
        Ok(Config { width, height, topology, quick_mode })
    }
}

/// A grid's cells, well formed: `w * h` of them; no passage or active cell
/// on the outer ring; each interior cell's parent is an interior cell, and
/// one that is not a wall has a parent that is not a wall.
pub open spec fn wf_cells(g: Seq<Cell>, w: int, h: int) -> bool {
    &&& g.len() == w * h
    &&& forall|i: int| 0 <= i < g.len() && !is_interior(i, w, h) ==> !is_open(#[trigger] g[i].state)
    &&& forall|i: int|
        is_interior(i, w, h) ==> {
            &&& is_interior(neighbor(i, #[trigger] g[i].parent, w), w, h)
            &&& (g[i].state != CellState::Wall ==> g[neighbor(i, g[i].parent, w)].state
                != CellState::Wall)
        }
}

/// `g` with the state of cell `i` replaced; its parent is kept.
pub open spec fn with_state(g: Seq<Cell>, i: int, s: CellState) -> Seq<Cell> {
    g.update(i, Cell { state: s, parent: g[i].parent })
}

/// A frontier cell `i`, whose parent at the start of the tick was `parent`,
/// looks in direction `d`: a passage there joins the frontier with `i` as
/// its parent; the end there turns `i` and its parent into the traced path;
/// a finished or erasing cell there dooms `i`.
pub open spec fn frontier_dir(g: Seq<Cell>, i: int, parent: Direction, d: Direction, w: int) -> Seq<Cell> {
    let t = neighbor(i, d, w);
    let seen = g[t].state;
    let g1 = if seen == CellState::Passage {
        g.update(t, Cell { state: CellState::Frontier, parent: reverse(d) })
    } else {
        g
    };
    let g2 = if seen == CellState::End {
        with_state(
            with_state(g1, i, CellState::BacktracePath),
            neighbor(i, parent, w),
            CellState::BacktracePath,
        )
    } else {
        g1
    };
    if seen == CellState::FinishedPath || seen == CellState::Destruct {
        with_state(g2, i, CellState::Destruct)
    } else {
        g2
    }
}

/// The frontier rule of cell `i` over the first `k` directions of `dirs`.
pub open spec fn frontier_upto(
    g: Seq<Cell>,
    i: int,
    parent: Direction,
    dirs: Seq<Direction>,
    w: int,
    k: nat,
) -> Seq<Cell>
    decreases k,
{
    if k == 0 {
        g
    } else {
        frontier_dir(frontier_upto(g, i, parent, dirs, w, (k - 1) as nat), i, parent, dirs[k - 1], w)
    }
}

/// A traced cell `i` next to the start or to a finished cell is finished.
pub open spec fn promote_dir(g: Seq<Cell>, i: int, d: Direction, w: int) -> Seq<Cell> {
    let seen = g[neighbor(i, d, w)].state;
    if seen == CellState::Start || seen == CellState::FinishedPath {
        with_state(g, i, CellState::FinishedPath)
    } else {
        g
    }
}

/// The promotion check of cell `i` over the first `k` directions of `dirs`.
pub open spec fn promote_upto(g: Seq<Cell>, i: int, dirs: Seq<Direction>, w: int, k: nat) -> Seq<Cell>
    decreases k,
{
    if k == 0 {
        g
    } else {
        promote_dir(promote_upto(g, i, dirs, w, (k - 1) as nat), i, dirs[k - 1], w)
    }
}

/// The rule of a traced cell: it stays traced, a frontier parent joins the
/// trace, and (out of quick mode) it is finished next to the start or a
/// finished cell.
pub open spec fn backtrace_rule(
    g: Seq<Cell>,
    i: int,
    parent: Direction,
    dirs: Seq<Direction>,
    w: int,
    quick: bool,
) -> Seq<Cell> {
    let g1 = with_state(g, i, CellState::BacktracePath);
    let p = neighbor(i, parent, w);
    let g2 = if g1[p].state == CellState::Frontier {
        with_state(g1, p, CellState::BacktracePath)
    } else {
        g1
    };
    if quick {
        g2
    } else {
        promote_upto(g2, i, dirs, w, dirs.len())
    }
}

/// The rule of cell `i`, chosen by its state `c` at the start of the tick.
pub open spec fn cell_rule(g: Seq<Cell>, i: int, c: Cell, cfg: Config) -> Seq<Cell> {
    let dirs = topology_dirs(cfg.topology);
    let w = cfg.width as int;
    match c.state {
        CellState::Frontier => frontier_upto(g, i, c.parent, dirs, w, dirs.len()),
        CellState::BacktracePath => backtrace_rule(g, i, c.parent, dirs, w, cfg.quick_mode),
        CellState::Destruct => with_state(g, i, CellState::Passage),
        _ => g,
    }
}

/// The grid after the rules of the first `k` cells of the scan of `snap`.
pub open spec fn tick_upto(snap: Seq<Cell>, cfg: Config, k: nat) -> Seq<Cell>
    decreases k,
{
    if k == 0 {
        snap
    } else {
        cell_rule(tick_upto(snap, cfg, (k - 1) as nat), k - 1, snap[k - 1], cfg)
    }
}

/// The grid one tick after `snap`.
pub open spec fn tick_spec(snap: Seq<Cell>, cfg: Config) -> Seq<Cell> {
    tick_upto(snap, cfg, snap.len())
}

/// What holds of the grid at every point of a tick that began at `snap`:
/// it is well formed, and walls are exactly where they were, unchanged.
pub open spec fn tick_inv(g: Seq<Cell>, snap: Seq<Cell>, w: int, h: int) -> bool {
    &&& wf_cells(g, w, h)
    &&& g.len() == snap.len()
    &&& forall|i: int|
        0 <= i < g.len() && (snap[i].state == CellState::Wall || #[trigger] g[i].state
            == CellState::Wall) ==> g[i] == snap[i]
}

/// The index of the seed cell: one step west of the start.
pub open spec fn seed_index(w: int) -> int {
    start_index(w) - 1
}

/// The cells of a fresh grid of states: each is its own parent.
pub open spec fn fresh_cells(states: Seq<CellState>) -> Seq<Cell> {
    Seq::new(states.len(), |i: int| Cell { state: states[i], parent: Direction::Center })
}

/// No cell of `g` is active.
pub open spec fn quiescent(g: Seq<Cell>) -> bool {
    forall|i: int| 0 <= i < g.len() ==> !is_active(#[trigger] g[i].state)
}

proof fn lemma_seed_interior(w: int, h: int)
    requires
        w >= 3,
        h >= 3,
    ensures
        is_interior(seed_index(w), w, h),
{
    reveal(is_interior);
    lemma_coords(w - 2, 1, w);
    assert(2 * w - 2 < w * h) by (nonlinear_arith)
        requires
            w >= 3,
            h >= 3,
    ;
}

proof fn lemma_active_interior(g: Seq<Cell>, i: int, w: int, h: int)
    requires
        wf_cells(g, w, h),
        0 <= i < g.len(),
        is_active(g[i].state),
    ensures
        is_interior(i, w, h),
        is_interior(neighbor(i, g[i].parent, w), w, h),
{
}

proof fn lemma_walls_kept(g: Seq<Cell>, snap: Seq<Cell>, w: int, h: int)
    requires
        tick_inv(g, snap, w, h),
    ensures
        forall|i: int|
            0 <= i < snap.len() && #[trigger] snap[i].state == CellState::Wall ==> g[i] == snap[i],
{
    assert forall|i: int|
        0 <= i < snap.len() && #[trigger] snap[i].state == CellState::Wall implies g[i] == snap[i] by {
        assert(g.len() == snap.len());
        assert(0 <= i < g.len());
        assert(snap[i].state == CellState::Wall || g[i].state == CellState::Wall);
    }
}

proof fn lemma_seed_wf(g: Seq<Cell>, w: int, h: int)
    requires
        w >= 3,
        h >= 3,
        wf_cells(g, w, h),
    ensures
        wf_cells(
            g.update(seed_index(w), Cell { state: CellState::Frontier, parent: Direction::Center }),
            w,
            h,
        ),
{
    let s = seed_index(w);
    lemma_seed_interior(w, h);
    lemma_interior_bounds(s, w, h);
    let g2 = g.update(s, Cell { state: CellState::Frontier, parent: Direction::Center });
    assert forall|j: int| is_interior(j, w, h) implies {
        &&& is_interior(neighbor(j, #[trigger] g2[j].parent, w), w, h)
        &&& (g2[j].state != CellState::Wall ==> g2[neighbor(j, g2[j].parent, w)].state
            != CellState::Wall)
    } by {
        lemma_interior_bounds(j, w, h);
        assert(0 <= j < g.len());
        if j != s {
            assert(g2[j] == g[j]);
            let p = neighbor(j, g[j].parent, w);
            assert(0 <= p < g.len());
            if g[j].state != CellState::Wall {
                assert(g[p].state != CellState::Wall);
            }
        }
    }
    assert forall|j: int| 0 <= j < g2.len() && !is_interior(j, w, h) implies !is_open(
        #[trigger] g2[j].state,
    ) by {
        assert(g2[j] == g[j]);
    }
}

proof fn lemma_set_state_inv(g: Seq<Cell>, snap: Seq<Cell>, i: int, s: CellState, w: int, h: int)
    requires
        w >= 3,
        tick_inv(g, snap, w, h),
        is_interior(i, w, h),
        snap[i].state != CellState::Wall,
        s != CellState::Wall,
    ensures
        tick_inv(with_state(g, i, s), snap, w, h),
{
    lemma_interior_bounds(i, w, h);
    let g2 = with_state(g, i, s);
    assert forall|j: int| is_interior(j, w, h) implies {
        &&& is_interior(neighbor(j, #[trigger] g2[j].parent, w), w, h)
        &&& (g2[j].state != CellState::Wall ==> g2[neighbor(j, g2[j].parent, w)].state
            != CellState::Wall)
    } by {
        lemma_interior_bounds(j, w, h);
        assert(0 <= j < g.len());
        assert(g[j].parent == g2[j].parent);
        let p = neighbor(j, g[j].parent, w);
        assert(0 <= p < g.len());
        if g2[j].state != CellState::Wall {
            if j != i {
                assert(g[j].state != CellState::Wall);
                assert(g[p].state != CellState::Wall);
            } else {
                assert(g[i].state != CellState::Wall);
            }
        }
    }
    assert forall|j: int|
        0 <= j < g2.len() && (snap[j].state == CellState::Wall || #[trigger] g2[j].state
            == CellState::Wall) implies g2[j] == snap[j] by {
        if j == i {
            assert(g[i].state != CellState::Wall);
        }
    }
    assert forall|j: int| 0 <= j < g2.len() && !is_interior(j, w, h) implies !is_open(
        #[trigger] g2[j].state,
    ) by {
        assert(g2[j] == g[j]);
    }
}

proof fn lemma_discover_inv(g: Seq<Cell>, snap: Seq<Cell>, i: int, d: Direction, w: int, h: int)
    requires
        w >= 3,
        tick_inv(g, snap, w, h),
        is_interior(i, w, h),
        snap[i].state != CellState::Wall,
        g[neighbor(i, d, w)].state == CellState::Passage,
    ensures
        tick_inv(
            g.update(neighbor(i, d, w), Cell { state: CellState::Frontier, parent: reverse(d) }),
            snap,
            w,
            h,
        ),
{
    let t = neighbor(i, d, w);
    lemma_interior_bounds(i, w, h);
    lemma_neighbor_reverse(i, d, w);
    assert(is_interior(t, w, h));
    let g2 = g.update(t, Cell { state: CellState::Frontier, parent: reverse(d) });
    assert forall|j: int| is_interior(j, w, h) implies {
        &&& is_interior(neighbor(j, #[trigger] g2[j].parent, w), w, h)
        &&& (g2[j].state != CellState::Wall ==> g2[neighbor(j, g2[j].parent, w)].state
            != CellState::Wall)
    } by {
        lemma_interior_bounds(j, w, h);
    }
}

proof fn lemma_frontier_upto_inv(
    g: Seq<Cell>,
    snap: Seq<Cell>,
    i: int,
    parent: Direction,
    dirs: Seq<Direction>,
    w: int,
    h: int,
    k: nat,
)
    requires
        w >= 3,
        k <= dirs.len(),
        tick_inv(g, snap, w, h),
        wf_cells(snap, w, h),
        is_interior(i, w, h),
        snap[i].state != CellState::Wall,
        is_interior(neighbor(i, parent, w), w, h),
        snap[neighbor(i, parent, w)].state != CellState::Wall,
    ensures
        tick_inv(frontier_upto(g, i, parent, dirs, w, k), snap, w, h),
    decreases k,
{
    if k > 0 {
        lemma_frontier_upto_inv(g, snap, i, parent, dirs, w, h, (k - 1) as nat);
        let g0 = frontier_upto(g, i, parent, dirs, w, (k - 1) as nat);
        let d = dirs[k - 1];
        let t = neighbor(i, d, w);
        lemma_interior_bounds(i, w, h);
        let seen = g0[t].state;
        let g1 = if seen == CellState::Passage {
            lemma_discover_inv(g0, snap, i, d, w, h);
            g0.update(t, Cell { state: CellState::Frontier, parent: reverse(d) })
        } else {
            g0
        };
        let g2 = if seen == CellState::End {
            lemma_set_state_inv(g1, snap, i, CellState::BacktracePath, w, h);
            let ga = with_state(g1, i, CellState::BacktracePath);
            lemma_set_state_inv(ga, snap, neighbor(i, parent, w), CellState::BacktracePath, w, h);
            with_state(ga, neighbor(i, parent, w), CellState::BacktracePath)
        } else {
            g1
        };
        if seen == CellState::FinishedPath || seen == CellState::Destruct {
            lemma_set_state_inv(g2, snap, i, CellState::Destruct, w, h);
        }
    }
}

proof fn lemma_promote_upto_inv(
    g: Seq<Cell>,
    snap: Seq<Cell>,
    i: int,
    dirs: Seq<Direction>,
    w: int,
    h: int,
    k: nat,
)
    requires
        w >= 3,
        k <= dirs.len(),
        tick_inv(g, snap, w, h),
        is_interior(i, w, h),
        snap[i].state != CellState::Wall,
    ensures
        tick_inv(promote_upto(g, i, dirs, w, k), snap, w, h),
    decreases k,
{
    if k > 0 {
        lemma_promote_upto_inv(g, snap, i, dirs, w, h, (k - 1) as nat);
        let g0 = promote_upto(g, i, dirs, w, (k - 1) as nat);
        lemma_interior_bounds(i, w, h);
        let seen = g0[neighbor(i, dirs[k - 1], w)].state;
        if seen == CellState::Start || seen == CellState::FinishedPath {
            lemma_set_state_inv(g0, snap, i, CellState::FinishedPath, w, h);
        }
    }
}

proof fn lemma_cell_rule_inv(g: Seq<Cell>, snap: Seq<Cell>, i: int, cfg: Config)
    requires
        cfg.width >= 3,
        0 <= i < snap.len(),
        tick_inv(g, snap, cfg.width as int, cfg.height as int),
        wf_cells(snap, cfg.width as int, cfg.height as int),
    ensures
        tick_inv(cell_rule(g, i, snap[i], cfg), snap, cfg.width as int, cfg.height as int),
{
    let w = cfg.width as int;
    let h = cfg.height as int;
    let c = snap[i];
    let dirs = topology_dirs(cfg.topology);
    if is_active(c.state) {
        assert(is_interior(i, w, h));
        let p = neighbor(i, c.parent, w);
        assert(is_interior(p, w, h));
        assert(snap[p].state != CellState::Wall);
        if c.state == CellState::Frontier {
            lemma_frontier_upto_inv(g, snap, i, c.parent, dirs, w, h, dirs.len());
        } else if c.state == CellState::BacktracePath {
            lemma_set_state_inv(g, snap, i, CellState::BacktracePath, w, h);
            let g1 = with_state(g, i, CellState::BacktracePath);
            let g2 = if g1[p].state == CellState::Frontier {
                lemma_set_state_inv(g1, snap, p, CellState::BacktracePath, w, h);
                with_state(g1, p, CellState::BacktracePath)
            } else {
                g1
            };
            if !cfg.quick_mode {
                lemma_promote_upto_inv(g2, snap, i, dirs, w, h, dirs.len());
            }
        } else {
            lemma_set_state_inv(g, snap, i, CellState::Passage, w, h);
        }
    }
}

/// Every step of a tick on a well-formed grid keeps the grid well formed
/// and leaves its walls where and as they were.
pub proof fn lemma_tick_upto_inv(snap: Seq<Cell>, cfg: Config, k: nat)
    requires
        cfg.width >= 3,
        k <= snap.len(),
        wf_cells(snap, cfg.width as int, cfg.height as int),
    ensures
        tick_inv(tick_upto(snap, cfg, k), snap, cfg.width as int, cfg.height as int),
    decreases k,
{
    if k > 0 {
        lemma_tick_upto_inv(snap, cfg, (k - 1) as nat);
        lemma_cell_rule_inv(tick_upto(snap, cfg, (k - 1) as nat), snap, k - 1, cfg);
    }
}

/// The grid seeded from a generated maze holds exactly one frontier cell,
/// the cell just west of the start, and that cell is its own parent.
pub proof fn lemma_seeded_maze_has_one_frontier(states: Seq<CellState>, w: int, h: int)
    requires
        valid_dims(w, h),
        is_generated_maze(states, w, h),
    ensures
        ({
            let g = fresh_cells(states).update(
                seed_index(w),
                Cell { state: CellState::Frontier, parent: Direction::Center },
            );
            &&& forall|i: int|
                0 <= i < g.len() ==> (#[trigger] g[i].state == CellState::Frontier <==> i
                    == seed_index(w))
            &&& g[seed_index(w)].parent == Direction::Center
        }),
{
    assert(0 <= seed_index(w) < w * h) by (nonlinear_arith)
        requires
            w >= 3,
            h >= 3,
    ;
    let g = fresh_cells(states).update(
        seed_index(w),
        Cell { state: CellState::Frontier, parent: Direction::Center },
    );
    assert forall|i: int| 0 <= i < g.len() implies (#[trigger] g[i].state == CellState::Frontier
        <==> i == seed_index(w)) by {
        if i != seed_index(w) {
            assert(g[i].state == states[i]);
        }
    }
}

/// The live grid and its settings.
pub struct Automaton {
    pub config: Config,
    pub cells: Vec<Cell>,
}

impl Automaton {
    /// Valid settings and well-formed cells.
    pub open spec fn wf(&self) -> bool {
        &&& self.config.valid()
        &&& wf_cells(self.cells@, self.config.width as int, self.config.height as int)
    }

    /// Takes a grid of states, each cell its own parent. The grid is refused
    /// if it does not hold width times height cells, or if a passage or an
    /// active cell stands on the outer ring.
    pub fn new(config: Config, states: Vec<CellState>) -> (r: Result<Automaton, GridError>)
        requires
            config.valid(),
        ensures
            r == Err::<Automaton, GridError>(GridError::WrongLength) <==> states@.len()
                != config.width * config.height,
            r == Err::<Automaton, GridError>(GridError::OpenBorder) <==> (states@.len()
                == config.width * config.height && exists|i: int|
                0 <= i < states@.len() && !is_interior(
                    i,
                    config.width as int,
                    config.height as int,
                ) && is_open(#[trigger] states@[i])),
            r matches Ok(a) ==> a.wf() && a.config == config && a.cells@ == fresh_cells(states@),
    {
        let w = config.width;
        let h = config.height;
        if states.len() != w * h {
            return Err(GridError::WrongLength);
        }
        let mut cells: Vec<Cell> = Vec::new();
        let mut i: usize = 0;
        while i < states.len()
            invariant
                config.valid(),
                w == config.width,
                h == config.height,
                states@.len() == w * h,
                i <= states@.len(),
                cells@ == fresh_cells(states@).subrange(0, i as int),
                forall|j: int|
                    0 <= j < i && !is_interior(j, w as int, h as int) ==> !is_open(
                        #[trigger] states@[j],
                    ),
            decreases states@.len() - i,
        {
            let s = states[i];
            let x = i % w;
            let y = i / w;
            let open = match s {
                CellState::Passage | CellState::Frontier | CellState::BacktracePath
                | CellState::Destruct => true,
                _ => false,
            };
            proof {
                reveal(is_interior);
            }
            if open && (x == 0 || x + 1 >= w || y == 0 || y + 1 >= h) {
                return Err(GridError::OpenBorder);
            }
            cells.push(Cell { state: s, parent: Direction::Center });
            i = i + 1;
            assert(cells@ =~= fresh_cells(states@).subrange(0, i as int));
        }
        assert(cells@ =~= fresh_cells(states@));
        proof {
            assert forall|j: int| is_interior(j, w as int, h as int) implies {
                &&& is_interior(neighbor(j, #[trigger] cells@[j].parent, w as int), w as int, h as int)
                &&& (cells@[j].state != CellState::Wall ==> cells@[neighbor(
                    j,
                    cells@[j].parent,
                    w as int,
                )].state != CellState::Wall)
            } by {
                lemma_interior_bounds(j, w as int, h as int);
            }
        }
        Ok(Automaton { config, cells })
    }

    /// The state of cell `i`.
    pub fn state_at(&self, i: usize) -> (r: CellState)
        requires
            i < self.cells@.len(),
        ensures
            r == self.cells@[i as int].state,
    {
        self.cells[i].state
    }

    /// The parent direction of cell `i`.
    pub fn parent_at(&self, i: usize) -> (r: Direction)
        requires
            i < self.cells@.len(),
        ensures
            r == self.cells@[i as int].parent,
    {
        self.cells[i].parent
    }

    /// The display colour of every cell, in row-major order.
    pub fn colors(&self) -> (r: Vec<u32>)
        ensures
            r@.len() == self.cells@.len(),
            forall|i: int| 0 <= i < r@.len() ==> #[trigger] r@[i] == color_of(self.cells@[i].state),
    {
        let mut r: Vec<u32> = Vec::new();
        let mut i: usize = 0;
        while i < self.cells.len()
            invariant
                i <= self.cells@.len(),
                r@.len() == i,
                forall|j: int| 0 <= j < i ==> #[trigger] r@[j] == color_of(self.cells@[j].state),
            decreases self.cells@.len() - i,
        {
            r.push(display_color(self.cells[i].state));
            i = i + 1;
        }
        r
    }

    /// Whether no cell is active, so that further ticks change nothing.
    pub fn is_quiescent(&self) -> (r: bool)
        ensures
            r == quiescent(self.cells@),
    {
        let mut i: usize = 0;
        while i < self.cells.len()
            invariant
                i <= self.cells@.len(),
                forall|j: int| 0 <= j < i ==> !is_active(#[trigger] self.cells@[j].state),
            decreases self.cells@.len() - i,
        {
            match self.cells[i].state {
                CellState::Frontier | CellState::BacktracePath | CellState::Destruct => {
                    return false;
                },
                _ => {},
            }
            i = i + 1;
        }
        true
    }

    /// Turns the cell just west of the start into the root of the flood
    /// fill: a frontier cell that is its own parent.
    #[verifier::rlimit(40)]
    pub fn seed(&mut self)
        requires
            old(self).wf(),
        ensures
            final(self).wf(),
            final(self).config == old(self).config,
            final(self).cells@ == old(self).cells@.update(
                seed_index(old(self).config.width as int),
                Cell { state: CellState::Frontier, parent: Direction::Center },
            ),
    {
        let w = self.config.width;
        let ghost h = self.config.height as int;
        let ghost wi = w as int;
        proof {
            lemma_seed_interior(wi, h);
            lemma_interior_bounds(seed_index(wi), wi, h);
        }
        self.cells.set(2 * w - 2, Cell { state: CellState::Frontier, parent: Direction::Center });
        proof {
            lemma_seed_wf(old(self).cells@, wi, h);
        }
    }

    fn set_state(&mut self, i: usize, st: CellState)
        requires
            i < old(self).cells@.len(),
        ensures
            final(self).config == old(self).config,
            final(self).cells@ == with_state(old(self).cells@, i as int, st),
    {
        let c = self.cells[i];
        self.cells.set(i, Cell { state: st, parent: c.parent });
    }

    fn frontier_cell(&mut self, i: usize, parent: Direction, dirs: &Vec<Direction>)
        requires
            old(self).config.valid(),
            old(self).cells@.len() == old(self).config.width * old(self).config.height,
            is_interior(i as int, old(self).config.width as int, old(self).config.height as int),
            is_interior(
                neighbor(i as int, parent, old(self).config.width as int),
                old(self).config.width as int,
                old(self).config.height as int,
            ),
        ensures
            final(self).config == old(self).config,
            final(self).cells@ == frontier_upto(
                old(self).cells@,
                i as int,
                parent,
                dirs@,
                old(self).config.width as int,
                dirs@.len(),
            ),
    {
        let w = self.config.width;
        let ghost wi = w as int;
        let ghost hi = self.config.height as int;
        proof {
            lemma_interior_bounds(i as int, wi, hi);
            lemma_interior_bounds(neighbor(i as int, parent, wi), wi, hi);
        }
        let mut k: usize = 0;
        while k < dirs.len()
            invariant
                self.config == old(self).config,
                wi == w,
                w >= 3,
                wi * hi <= usize::MAX,
                self.cells@.len() == wi * hi,
                k <= dirs@.len(),
                w + 1 <= i,
                i + w + 1 < wi * hi,
                forall|d: Direction| 0 <= #[trigger] neighbor(i as int, d, wi) < wi * hi,
                self.cells@ == frontier_upto(old(self).cells@, i as int, parent, dirs@, wi, k as nat),
            decreases dirs@.len() - k,
        {
            let d = dirs[k];
            let t = find_target_index(i, d, w);
            let seen = self.cells[t].state;
            if seen == CellState::Passage {
                self.cells.set(t, Cell { state: CellState::Frontier, parent: reverse_direction(d) });
            }
            if seen == CellState::End {
                self.set_state(i, CellState::BacktracePath);
                let p = find_target_index(i, parent, w);
                self.set_state(p, CellState::BacktracePath);
            }
            if seen == CellState::FinishedPath || seen == CellState::Destruct {
                self.set_state(i, CellState::Destruct);
            }
            k = k + 1;
        }
    }

    fn backtrace_cell(&mut self, i: usize, parent: Direction, dirs: &Vec<Direction>)
        requires
            old(self).config.valid(),
            old(self).cells@.len() == old(self).config.width * old(self).config.height,
            is_interior(i as int, old(self).config.width as int, old(self).config.height as int),
            is_interior(
                neighbor(i as int, parent, old(self).config.width as int),
                old(self).config.width as int,
                old(self).config.height as int,
            ),
        ensures
            final(self).config == old(self).config,
            final(self).cells@ == backtrace_rule(
                old(self).cells@,
                i as int,
                parent,
                dirs@,
                old(self).config.width as int,
                old(self).config.quick_mode,
            ),
    {
        let w = self.config.width;
        let ghost wi = w as int;
        let ghost hi = self.config.height as int;
        proof {
            lemma_interior_bounds(i as int, wi, hi);
            lemma_interior_bounds(neighbor(i as int, parent, wi), wi, hi);
        }
        self.set_state(i, CellState::BacktracePath);
        let p = find_target_index(i, parent, w);
        if self.cells[p].state == CellState::Frontier {
            self.set_state(p, CellState::BacktracePath);
        }
        if !self.config.quick_mode {
            let ghost g2 = self.cells@;
            let mut k: usize = 0;
            while k < dirs.len()
                invariant
                    self.config == old(self).config,
                    wi == w,
                    w >= 3,
                    wi * hi <= usize::MAX,
                    self.cells@.len() == wi * hi,
                    k <= dirs@.len(),
                    w + 1 <= i,
                    i + w + 1 < wi * hi,
                    forall|d: Direction| 0 <= #[trigger] neighbor(i as int, d, wi) < wi * hi,
                    self.cells@ == promote_upto(g2, i as int, dirs@, wi, k as nat),
                decreases dirs@.len() - k,
            {
                let t = find_target_index(i, dirs[k], w);
                let seen = self.cells[t].state;
                if seen == CellState::Start || seen == CellState::FinishedPath {
                    self.set_state(i, CellState::FinishedPath);
                }
                k = k + 1;
            }
        }
    }

    /// Advances the grid by one tick. The cells that are active when the
    /// tick begins are visited in row-major order, each by the rule of its
    /// state at that moment, all writing into the one live grid:
    /// a frontier cell spreads into neighbouring passages, is traced when it
    /// touches the end and is doomed when it touches a finished or erasing
    /// cell; a traced cell pulls its frontier parent into the trace and,
    /// out of quick mode, is finished next to the start or a finished cell;
    /// an erasing cell becomes a passage again. Walls never change.
    #[verifier::rlimit(80)]
    pub fn tick(&mut self)
        requires
            old(self).wf(),
        ensures
            final(self).wf(),
            final(self).config == old(self).config,
            final(self).cells@ == tick_spec(old(self).cells@, old(self).config),
            forall|i: int|
                0 <= i < old(self).cells@.len() && #[trigger] old(self).cells@[i].state
                    == CellState::Wall ==> final(self).cells@[i] == old(self).cells@[i],
    {
        let ghost cfg = self.config;
        let ghost wi = cfg.width as int;
        let ghost hi = cfg.height as int;
        let mut snapshot: Vec<Cell> = Vec::new();
        let n = self.cells.len();
        let mut j: usize = 0;
        while j < n
            invariant
                n == self.cells@.len(),
                j <= n,
                snapshot@ == self.cells@.subrange(0, j as int),
            decreases n - j,
        {
            snapshot.push(self.cells[j]);
            j = j + 1;
        }
        assert(snapshot@ =~= self.cells@);
        let dirs = directions(self.config.topology);
        let mut k: usize = 0;
        proof {
            lemma_tick_upto_inv(snapshot@, cfg, 0);
        }
        while k < n
            invariant
                cfg.valid(),
                self.config == cfg,
                wi == cfg.width,
                hi == cfg.height,
                n == snapshot@.len(),
                snapshot@ == old(self).cells@,
                wf_cells(snapshot@, wi, hi),
                dirs@ == topology_dirs(cfg.topology),
                k <= n,
                self.cells@ == tick_upto(snapshot@, cfg, k as nat),
                tick_inv(self.cells@, snapshot@, wi, hi),
            decreases n - k,
        {
            let c = snapshot[k];
            proof {
                if is_active(c.state) {
                    lemma_active_interior(snapshot@, k as int, wi, hi);
                }
            }
            match c.state {
                CellState::Frontier => self.frontier_cell(k, c.parent, &dirs),
                CellState::BacktracePath => self.backtrace_cell(k, c.parent, &dirs),
                CellState::Destruct => self.set_state(k, CellState::Passage),
                _ => {},
            }
            proof {
                lemma_tick_upto_inv(snapshot@, cfg, (k + 1) as nat);
            }
            k = k + 1;
        }
        proof {
            lemma_walls_kept(self.cells@, snapshot@, wi, hi);
        }
        proof {
            lemma_walls_kept(self.cells@, snapshot@, wi, hi);
        }
    }
}

} // verus!
