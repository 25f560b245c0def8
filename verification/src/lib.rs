use vstd::prelude::*;

pub mod board;
pub mod generator;
pub mod grid;
pub mod search;

pub use board::{
    apply_slide, calculate_cost, find_blank, goal_board, legal_moves, validate, Board, BoardError,
};
pub use generator::generate;
pub use grid::{Grid, GridMessage};
pub use search::{new_node, reconstruct_path, select_min, solve, Entry, Node, SolveResult};

verus! {

/// The requests the user interface can issue against the puzzle core:
/// scramble a new board, solve the current one, or pick another grid side.
#[derive(Debug, Clone, Copy)]
pub enum Message {
    Generate,
    Solve,
    ChangeGridSize(u8),
}

} // verus!
