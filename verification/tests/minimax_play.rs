use tictactoe::board::{
    check_for_winners, find_empty_fields, is_game_active, update_board, Board, FieldData,
};
use tictactoe::minimax::{minimax, MinimaxRes};

const X: FieldData = FieldData::X;
const O: FieldData = FieldData::O;
const E: FieldData = FieldData::Empty;

fn grid(cells: [FieldData; 9]) -> Board {
    [
        [cells[0], cells[1], cells[2]],
        [cells[3], cells[4], cells[5]],
        [cells[6], cells[7], cells[8]],
    ]
}

fn self_play(first: FieldData) -> Board {
    let mut board = [[E; 3]; 3];
    let mut player = first;
    let mut moves = 0;
    while is_game_active(&board) {
        let res = minimax(&mut board, &player);
        let cell = res.index.expect("a move while the game goes on") as usize;
        assert_eq!(board[cell / 3][cell % 3], E);
        board = update_board(&board, cell, &player);
        player = FieldData::get_opponent(&player);
        moves += 1;
        assert!(moves <= 9);
    }
    board
}

#[test]
fn perfect_play_draws_when_x_begins() {
    let board = self_play(X);
    assert_eq!(check_for_winners(&board), E);
    assert!(find_empty_fields(&board).is_empty());
}

#[test]
fn perfect_play_draws_when_o_begins() {
    let board = self_play(O);
    assert_eq!(check_for_winners(&board), E);
    assert!(find_empty_fields(&board).is_empty());
}

#[test]
fn empty_board_is_worth_a_draw_for_o() {
    let mut board = [[E; 3]; 3];
    let res = minimax(&mut board, &O);
    assert_eq!(res.score, 0);
    let cell = res.index.expect("a move on the empty board");
    assert!((0..9).contains(&cell));
    assert_eq!(cell, 0);
}

#[test]
fn empty_board_is_worth_a_draw_for_x() {
    let mut board = [[E; 3]; 3];
    let res = minimax(&mut board, &X);
    assert_eq!(res.score, 0);
    assert_eq!(res.index, Some(0));
}

#[test]
fn minimax_hands_the_board_back() {
    let mut board = grid([X, E, E, E, O, E, E, E, E]);
    let copy = board;
    let _ = minimax(&mut board, &X);
    assert_eq!(board, copy);
    let _ = minimax(&mut board, &O);
    assert_eq!(board, copy);
}

#[test]
fn o_takes_the_win() {
    let mut board = grid([X, X, E, O, O, E, X, E, E]);
    let MinimaxRes { score, index } = minimax(&mut board, &O);
    assert_eq!(score, 1);
    assert_eq!(index, Some(5));
}

#[test]
fn earlier_winning_line_of_play_is_preferred() {
    // Cell 5 wins at once, but cell 2 wins as well, two moves later, and
    // comes first.
    let mut board = grid([X, X, E, O, O, E, E, E, E]);
    let res = minimax(&mut board, &O);
    assert_eq!(res.score, 1);
    assert_eq!(res.index, Some(2));
}

#[test]
fn x_takes_the_win() {
    let mut board = grid([X, X, E, O, O, E, E, E, E]);
    let MinimaxRes { score, index } = minimax(&mut board, &X);
    assert_eq!(score, -1);
    assert_eq!(index, Some(2));
}

#[test]
fn o_blocks_to_hold_the_draw() {
    let mut board = grid([X, X, E, E, O, E, E, E, E]);
    let res = minimax(&mut board, &O);
    assert_eq!(res.score, 0);
    assert_eq!(res.index, Some(2));
}

#[test]
fn lost_position_has_value_of_the_loss() {
    // X threatens on two lines; O cannot hold both.
    let mut board = grid([X, E, E, E, X, O, E, O, X]);
    assert_eq!(check_for_winners(&board), X);
    let mut fork = grid([X, E, X, E, O, E, X, E, O]);
    let res = minimax(&mut fork, &O);
    assert_eq!(res.score, -1);
    assert_eq!(res.index, Some(1));
    let res = minimax(&mut board, &O);
    assert_eq!(res.score, -1);
    assert_eq!(res.index, None);
}

#[test]
fn won_position_has_no_move() {
    let mut board = grid([O, O, O, X, X, E, E, E, E]);
    let res = minimax(&mut board, &X);
    assert_eq!(res.score, 1);
    assert_eq!(res.index, None);
    let mut board = grid([X, X, X, O, O, E, E, E, E]);
    let res = minimax(&mut board, &O);
    assert_eq!(res.score, -1);
    assert_eq!(res.index, None);
}

#[test]
fn drawn_full_board_has_value_zero() {
    let mut board = grid([X, O, X, X, O, O, O, X, X]);
    for player in [X, O] {
        let res = minimax(&mut board, &player);
        assert_eq!(res.score, 0);
        assert_eq!(res.index, None);
    }
}

#[test]
fn last_free_cell_is_the_move() {
    let mut board = grid([X, O, X, X, O, O, O, X, E]);
    let res = minimax(&mut board, &X);
    assert_eq!(res.score, 0);
    assert_eq!(res.index, Some(8));
    let mut board = grid([X, O, X, O, O, X, E, X, O]);
    let res = minimax(&mut board, &X);
    assert_eq!(res.index, Some(6));
    assert_eq!(res.score, 0);
}

#[test]
fn first_of_equal_moves_is_kept() {
    // O wins on cell 2 and on cell 6; the earlier cell is returned.
    let mut board = grid([O, O, E, O, X, X, E, X, X]);
    let res = minimax(&mut board, &O);
    assert_eq!(res.score, 1);
    assert_eq!(res.index, Some(2));
}

#[test]
fn minimax_move_is_always_a_free_cell() {
    let boards = [
        grid([X, E, E, E, E, E, E, E, E]),
        grid([E, E, E, E, X, E, E, E, E]),
        grid([X, O, E, E, X, E, E, E, E]),
        grid([X, O, X, E, O, E, E, E, E]),
    ];
    for mut board in boards {
        for player in [X, O] {
            let res = minimax(&mut board, &player);
            let cell = res.index.expect("a move") as usize;
            assert_eq!(board[cell / 3][cell % 3], E);
            assert!((-1..=1).contains(&res.score));
        }
    }
}

#[test]
fn center_reply_holds_the_draw_after_a_corner() {
    let mut board = grid([X, E, E, E, E, E, E, E, E]);
    let res = minimax(&mut board, &O);
    assert_eq!(res.score, 0);
    assert_eq!(res.index, Some(4));
}
