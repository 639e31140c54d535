//! The exhaustive solver: the value of a position under best play by both
//! sides, and a move that attains it.

use crate::board::{
    cells, check_for_winners, count_empty, empty_fields, field, find_empty_fields, full,
    game_over, lemma_count_after_update, lemma_empty_fields_upto, lemma_same_cells_same_board,
    opponent, winner, Board, FieldData,
};
use vstd::prelude::*;

verus! {

/// What the solver found: the value of the position, and the cell to play
/// (none where the game is over).
pub struct MinimaxRes {
    pub score: i32,
    pub index: Option<i32>,
}

/// Whether score `s` is better than score `t` for `player`: `O` seeks the
/// greatest score, every other player the least.
pub open spec fn better(player: FieldData, s: int, t: int) -> bool {
    if player == FieldData::O {
        s > t
    } else {
        s < t
    }
}

/// The better of two scores for `player`.
pub open spec fn prefer(player: FieldData, s: int, t: int) -> int {
    if better(player, s, t) {
        s
    } else {
        t
    }
}

/// 1 for a player that places no mark, 0 for `X` and `O`.
pub open spec fn idle(player: FieldData) -> nat {
    if player == FieldData::Empty {
        1
    } else {
        0
    }
}

/// The value of a position with `player` to move, both sides playing their
/// best from there on: 1 where `O` has won, -1 where `X` has won, 0 on a
/// full grid without a winner, and otherwise the best for `player` of the
/// values that its moves lead to.
pub open spec fn game_value(c: Seq<FieldData>, player: FieldData) -> int
    decreases count_empty(c), idle(player), 10int,
{
    if c.len() != 9 {
        0
    } else if winner(c) == FieldData::X {
        -1
    } else if winner(c) == FieldData::O {
        1
    } else {
        match best_value_upto(c, player, 9) {
            Some(v) => v,
            None => 0,
        }
    }
}

/// The best for `player` of the values that a move to a free cell among the
/// first `n` leads to; none where none of these cells is free.
pub open spec fn best_value_upto(c: Seq<FieldData>, player: FieldData, n: int) -> Option<int>
    decreases count_empty(c), idle(player), n,
{
    if c.len() != 9 || n <= 0 || n > 9 {
        None
    } else if c[n - 1] != FieldData::Empty {
        best_value_upto(c, player, n - 1)
    } else {
        proof {
            if player != FieldData::Empty {
                lemma_count_after_update(c, n - 1, player, 9);
            } else {
                assert(c.update(n - 1, player) =~= c);
            }
        }
        let v = game_value(c.update(n - 1, player), opponent(player));
        match best_value_upto(c, player, n - 1) {
            Some(w) => Some(prefer(player, v, w)),
            None => Some(v),
        }
    }
}

/// The value of the position that `player` reaches by taking cell `i`.
pub open spec fn reply_value(c: Seq<FieldData>, player: FieldData, i: int) -> int {
    game_value(c.update(i, player), opponent(player))
}

/// Whether `m` is the move that the solver makes for `player` where the
/// position is worth `score`: a free cell whose reply has that value, no
/// free cell having a better one, and no earlier free cell an equal one.
pub open spec fn first_best_reply(
    c: Seq<FieldData>,
    player: FieldData,
    score: int,
    m: int,
) -> bool {
    &&& 0 <= m < 9
    &&& c[m] == FieldData::Empty
    &&& reply_value(c, player, m) == score
    &&& forall|j: int|
        0 <= j < 9 && c[j] == FieldData::Empty ==> !better(
            player,
            #[trigger] reply_value(c, player, j),
            score,
        )
    &&& forall|j: int|
        0 <= j < m && c[j] == FieldData::Empty ==> #[trigger] reply_value(c, player, j) != score
}

/// The best value among the first `n` cells is the value of a move to one
/// of them, and no move to one of them is better.
pub proof fn lemma_best_value_upto(c: Seq<FieldData>, player: FieldData, n: int)
    requires
        c.len() == 9,
        0 <= n <= 9,
    ensures
        best_value_upto(c, player, n) is None <==> (forall|j: int|
            0 <= j < n ==> c[j] != FieldData::Empty),
        best_value_upto(c, player, n) matches Some(v) ==> {
            &&& exists|j: int|
                0 <= j < n && c[j] == FieldData::Empty && #[trigger] reply_value(c, player, j)
                    == v
            &&& forall|j: int|
                0 <= j < n && c[j] == FieldData::Empty ==> !better(
                    player,
                    #[trigger] reply_value(c, player, j),
                    v,
                )
        },
    decreases n,
{
    if n > 0 {
        lemma_best_value_upto(c, player, n - 1);
        if c[n - 1] == FieldData::Empty {
            let v = reply_value(c, player, n - 1);
            match best_value_upto(c, player, n - 1) {
                Some(w) => {
                    let j = choose|j: int|
                        0 <= j < n - 1 && c[j] == FieldData::Empty && #[trigger] reply_value(
                            c,
                            player,
                            j,
                        ) == w;
                    assert(reply_value(c, player, j) == w);
                },
                None => {},
            }
        }
    }
}

/// The value of a position is -1, 0 or 1.
pub proof fn lemma_game_value_range(c: Seq<FieldData>, player: FieldData)
    ensures
        -1 <= game_value(c, player) <= 1,
    decreases count_empty(c), idle(player), 10int,
{
    if c.len() == 9 && winner(c) == FieldData::Empty {
        lemma_best_value_range(c, player, 9);
    }
}

/// The best value among the first `n` cells is -1, 0 or 1.
pub proof fn lemma_best_value_range(c: Seq<FieldData>, player: FieldData, n: int)
    requires
        c.len() == 9,
        0 <= n <= 9,
    ensures
        best_value_upto(c, player, n) matches Some(v) ==> -1 <= v <= 1,
    decreases count_empty(c), idle(player), n,
{
    if n > 0 {
        lemma_best_value_range(c, player, n - 1);
        if c[n - 1] == FieldData::Empty {
            if player != FieldData::Empty {
                lemma_count_after_update(c, n - 1, player, 9);
            } else {
                assert(c.update(n - 1, player) =~= c);
            }
            lemma_game_value_range(c.update(n - 1, player), opponent(player));
        }
    }
}

/// Best play: while the game goes on, the value of a position is the value
/// of one of the mover's replies, and none of the replies is better for
/// the mover. `O` cannot reach more, and any other player cannot reach
/// less.
pub proof fn lemma_game_value_is_best_reply(c: Seq<FieldData>, player: FieldData)
    requires
        c.len() == 9,
        !game_over(c),
    ensures
        exists|i: int|
            0 <= i < 9 && c[i] == FieldData::Empty && #[trigger] reply_value(c, player, i)
                == game_value(c, player),
        forall|i: int|
            0 <= i < 9 && c[i] == FieldData::Empty ==> !better(
                player,
                #[trigger] reply_value(c, player, i),
                game_value(c, player),
            ),
{
    lemma_best_value_upto(c, player, 9);
}

/// Once the game is over the value is what the grid shows: 1 where `O` has
/// won, -1 where `X` has won, 0 on a full grid without a winner.
pub proof fn lemma_game_value_when_over(c: Seq<FieldData>, player: FieldData)
    requires
        c.len() == 9,
        game_over(c),
    ensures
        game_value(c, player) == (match winner(c) {
            FieldData::O => 1int,
            FieldData::X => -1int,
            FieldData::Empty => 0int,
        }),
{
    lemma_best_value_upto(c, player, 9);
}

/// Solves the position for `curr_player`: the score is the value of the
/// position under best play, and the index is the first free cell, in
/// row-major order, whose reply attains it. `O` seeks the greatest score
/// and any other player the least. The grid is handed back as it came.
pub fn minimax(board: &mut Board, curr_player: &FieldData) -> (r: MinimaxRes)
    ensures
        *final(board) == *old(board),
        r.score == game_value(cells(*old(board)), *curr_player),
        -1 <= r.score <= 1,
        game_over(cells(*old(board))) ==> r.index is None,
        !game_over(cells(*old(board))) ==> (r.index matches Some(m) && first_best_reply(
            cells(*old(board)),
            *curr_player,
            r.score as int,
            m as int,
        )),
    decreases count_empty(cells(*old(board))), idle(*curr_player),
{
    let ghost b0 = *board;
    let ghost c0 = cells(*board);
    let empty_fields = find_empty_fields(board);
    proof {
        lemma_empty_fields_upto(c0, 9);
        lemma_best_value_upto(c0, *curr_player, 9);
        if empty_fields@.len() > 0 {
            assert(c0[empty_fields@[0] as int] == FieldData::Empty);
        }
        if !full(c0) {
            let i = choose|i: int| 0 <= i < 9 && c0[i] == FieldData::Empty;
            assert(empty_fields@.contains(i as usize));
        }
    }
    let curr_winner = check_for_winners(board);
    if curr_winner == FieldData::X {
        return MinimaxRes { score: -1, index: None };
    } else if curr_winner == FieldData::O {
        return MinimaxRes { score: 1, index: None };
    } else if empty_fields.len() == 0 {
        return MinimaxRes { score: 0, index: None };
    }
    let opp = FieldData::get_opponent(curr_player);
    let mut best = MinimaxRes { score: 0, index: None };
    let mut i: usize = 0;
    while i < 9
        invariant
            i <= 9,
            *board == b0,
            b0 == *old(board),
            c0 == cells(b0),
            opp == opponent(*curr_player),
            -1 <= best.score <= 1,
            match best.index {
                None => best_value_upto(c0, *curr_player, i as int) is None,
                Some(m) => {
                    &&& 0 <= m < i
                    &&& c0[m as int] == FieldData::Empty
                    &&& best_value_upto(c0, *curr_player, i as int) == Some(best.score as int)
                    &&& reply_value(c0, *curr_player, m as int) == best.score
                    &&& forall|j: int|
                        0 <= j < m && c0[j] == FieldData::Empty ==> #[trigger] reply_value(
                            c0,
                            *curr_player,
                            j,
                        ) != best.score
                },
            },
        decreases 9 - i,
    {
        if field(board, i) == FieldData::Empty {
            board[i / 3][i % 3] = *curr_player;
            proof {
                assert(cells(*board) =~= c0.update(i as int, *curr_player));
                if *curr_player != FieldData::Empty {
                    lemma_count_after_update(c0, i as int, *curr_player, 9);
                } else {
                    assert(c0.update(i as int, *curr_player) =~= c0);
                }
            }
            let res = minimax(board, &opp);
            board[i / 3][i % 3] = FieldData::Empty;
            proof {
                assert(cells(*board) =~= c0);
                lemma_same_cells_same_board(*board, b0);
                lemma_best_value_upto(c0, *curr_player, i as int);
            }
            let improves = match best.index {
                None => true,
                Some(_) => if *curr_player == FieldData::O {
                    res.score > best.score
                } else {
                    res.score < best.score
                },
            };
            if improves {
                best = MinimaxRes { score: res.score, index: Some(i as i32) };
            }
        }
        i += 1;
    }
    best
}

} // verus!
