//! A maze generator and a cellular automaton that floods the maze from a seed
//! cell, traces the path it finds back to the seed and erases dead branches.
pub mod automaton;
pub mod cell;
pub mod direction;
pub mod maze;
