//! Ultimate tic-tac-toe ("morpion") engine: rules, move generation,
//! heuristics and game-tree search, with their behaviour proved by Verus.

pub mod ai;
pub mod fight;
pub mod morpion;

pub use ai::{
    alpha_beta, center_heuristic, corner_heuristic, evaluate_winning_sequence, everywhere_heuristic,
    generate_children, minimax, noise, winning_sequence_heuristic, AILevel, Heuristic,
};
pub use fight::{fight, FightTally};
pub use morpion::{all_occupied, is_won_by, Board, CellState, Morpion, Player, PlayingState};
