//! The states a grid cell can be in, and how each is displayed.
use crate::direction::Direction;
use vstd::prelude::*;

verus! {

/// The logical state of one grid cell.
#[derive(Clone, Copy, Debug, PartialEq, Eq, Structural)]
pub enum CellState {
    Wall,
    Passage,
    Start,
    End,
    /// Part of the advancing flood-fill wave.
    Frontier,
    /// On the traced chain from the end back toward the seed.
    BacktracePath,
    /// On the confirmed solution path.
    FinishedPath,
    /// Scheduled for erasure on the next tick.
    Destruct,
}

/// A cell: its state, and the direction of the cell that discovered it.
#[derive(Clone, Copy, Debug, PartialEq, Eq, Structural)]
pub struct Cell {
    pub state: CellState,
    pub parent: Direction,
}

/// The states that the automaton acts on.
pub open spec fn is_active(s: CellState) -> bool {
    s == CellState::Frontier || s == CellState::BacktracePath || s == CellState::Destruct
}

/// The states a cell may only hold away from the outer ring.
pub open spec fn is_open(s: CellState) -> bool {
    s == CellState::Passage || is_active(s)
}

/// The 0xRRGGBB display colour of each state.
pub open spec fn color_of(s: CellState) -> u32 {
    match s {
        CellState::Wall => 0x000000,
        CellState::Passage => 0xFFFFFF,
        CellState::Start => 0x0000FF,
        CellState::End => 0xFF0000,
        CellState::Frontier => 0x00FF00,
        CellState::BacktracePath => 0x0088FF,
        CellState::FinishedPath => 0x8888FF,
        CellState::Destruct => 0xFF00FF,
    }
}

/// The display colour of a state, as 0xRRGGBB.
pub fn display_color(s: CellState) -> (r: u32)
    ensures
        r == color_of(s),
{
    match s {
        CellState::Wall => 0x000000,
        CellState::Passage => 0xFFFFFF,
        CellState::Start => 0x0000FF,
        CellState::End => 0xFF0000,
        CellState::Frontier => 0x00FF00,
        CellState::BacktracePath => 0x0088FF,
        CellState::FinishedPath => 0x8888FF,
        CellState::Destruct => 0xFF00FF,
    }
}

} // verus!
