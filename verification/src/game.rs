//! The ways in which a game can be played, and the move of the bot in each
//! of them.

use crate::board::{cells, game_over, Board, FieldData};
use crate::mcts::{forced_move, generate_optimal_move, mcts, searched, LIMIT_MAX};
use crate::minimax::{first_best_reply, game_value, minimax};
use crate::tree::{best_action, NodeView};
use vstd::prelude::*;

verus! {

/// Who answers the player's moves.
#[derive(Copy, Clone, Debug, PartialEq, Eq, Structural)]
pub enum GameType {
    /// The bot that wins or blocks at once where it can and else moves by
    /// chance.
    Random,
    /// The exhaustive solver.
    Minimax,
    /// Monte Carlo tree search.
    MCTS,
    /// A second player.
    PVP,
}

impl GameType {
    /// The game type that a menu number selects: 0 for two players, 1 for
    /// the basic bot, 2 for tree search, 3 for the solver; none for any
    /// other number.
    pub fn from_number(number: i32) -> (r: Option<GameType>)
        ensures
            r == (if number == 0 {
                Some(GameType::PVP)
            } else if number == 1 {
                Some(GameType::Random)
            } else if number == 2 {
                Some(GameType::MCTS)
            } else if number == 3 {
                Some(GameType::Minimax)
            } else {
                None
            }),
    {
        match number {
            0 => Some(GameType::PVP),
            1 => Some(GameType::Random),
            2 => Some(GameType::MCTS),
            3 => Some(GameType::Minimax),
            _ => None,
        }
    }
}

/// The move of the bot in a game of type `game_type`, while the game goes
/// on: a free cell of the grid. The basic bot moves as
/// `generate_optimal_move` does for `current_player`, the solver as
/// `minimax` does for `O`, and tree search as `mcts` does with `limit`
/// simulations and the scores of `formula`. Between two players no bot
/// moves, and there is no move to return.
pub fn generate_bot_move<F: Fn(i32, i32, i32) -> i64>(
    board: &mut Board,
    game_type: &GameType,
    current_player: &FieldData,
    first_player: &FieldData,
    limit: i32,
    formula: F,
) -> (r: Option<usize>)
    requires
        !game_over(cells(*old(board))),
        1 <= limit <= LIMIT_MAX,
        forall|v: i32, n: i32, t: i32| call_requires(formula, (v, n, t)),
    ensures
        *final(board) == *old(board),
        r is None <==> *game_type == GameType::PVP,
        r matches Some(m) ==> m < 9 && cells(*old(board))[m as int] == FieldData::Empty,
        *game_type == GameType::Random ==> (forced_move(cells(*old(board)), *current_player)
            matches Some(f) ==> r == Some(f)),
        *game_type == GameType::Minimax ==> (r matches Some(m) && first_best_reply(
            cells(*old(board)),
            FieldData::O,
            game_value(cells(*old(board)), FieldData::O),
            m as int,
        )),
        *game_type == GameType::MCTS ==> exists|t: Seq<NodeView>|
            #[trigger] searched(t, cells(*old(board)), *first_player, limit as int) && r == Some(
                best_action(t, 0),
            ),
{
    match game_type {
        GameType::Random => Some(generate_optimal_move(board, current_player)),
        GameType::Minimax => {
            let res = minimax(board, &FieldData::O);
            match res.index {
                None => None,
                Some(i) => Some(i as usize),
            }
        },
        GameType::MCTS => Some(mcts(board, first_player, limit, formula)),
        GameType::PVP => None,
    }
}

} // verus!
