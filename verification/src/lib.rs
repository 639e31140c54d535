//! Tic-tac-toe on the 3×3 grid: the rules of the game, an exhaustive
//! minimax solver and a Monte Carlo tree search, each function with a
//! contract over the nine cells of the grid.

pub mod board;
pub mod game;
pub mod mcts;
pub mod minimax;
pub mod random;
pub mod tree;

pub use crate::board::{
    are_fields_full, check_for_winners, display_field_value, find_empty_fields, is_game_active,
    is_legal_move, update_board, Board, FieldData,
};
pub use crate::game::GameType;
pub use crate::random::{get_first_player, random_bot_move};
