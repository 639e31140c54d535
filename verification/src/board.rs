//! The board and the rules: who has won, which cells are free, and what a
//! move does to the grid.

use vstd::prelude::*;
use vstd::string::StringExecFns;

verus! {

/// What one cell of the grid holds: the mark of a player, or nothing yet.
#[derive(Copy, Clone, Debug, PartialEq, Eq, Structural)]
pub enum FieldData {
    X,
    O,
    Empty,
}

/// The grid, row by row. Cell `i` (0 to 8, row-major) is `board[i / 3][i % 3]`.
pub type Board = [[FieldData; 3]; 3];

/// The nine cells of a board in row-major order: the model that every
/// contract of this library speaks of.
pub open spec fn cells(board: Board) -> Seq<FieldData> {
    Seq::new(9, |i: int| board[i / 3][i % 3])
}

/// The mark that answers `mark`: `X` for `O`, and `O` for anything else.
pub open spec fn opponent(mark: FieldData) -> FieldData {
    if mark == FieldData::O {
        FieldData::X
    } else {
        FieldData::O
    }
}

impl FieldData {
    /// The mark that answers `current_player`: `X` for `O`, and `O` for
    /// anything else.
    pub fn get_opponent(current_player: &FieldData) -> (r: FieldData)
        ensures
            r == opponent(*current_player),
    {
        match current_player {
            FieldData::O => FieldData::X,
            _ => FieldData::O,
        }
    }
}

/// The three cells of line `k`: lines 0 to 2 are the rows from the top,
/// 3 to 5 the columns from the left, 6 and 7 the two diagonals.
pub open spec fn line(k: int) -> (int, int, int) {
    if k < 3 {
        (3 * k, 3 * k + 1, 3 * k + 2)
    } else if k < 6 {
        (k - 3, k, k + 3)
    } else if k == 6 {
        (0, 4, 8)
    } else {
        (2, 4, 6)
    }
}

/// Whether cell `i` lies on line `k`.
pub open spec fn on_line(k: int, i: int) -> bool {
    i == line(k).0 || i == line(k).1 || i == line(k).2
}

/// The mark that fills line `k`, or `Empty` where the line is not filled by
/// one mark.
pub open spec fn line_mark(c: Seq<FieldData>, k: int) -> FieldData {
    let (p, q, r) = line(k);
    if c[p] == c[q] && c[q] == c[r] {
        c[p]
    } else {
        FieldData::Empty
    }
}

/// The mark of the last filled line among the first `n` lines, or `Empty`
/// where none of them is filled.
pub open spec fn winner_among(c: Seq<FieldData>, n: int) -> FieldData
    decreases n,
{
    if n <= 0 {
        FieldData::Empty
    } else if line_mark(c, n - 1) != FieldData::Empty {
        line_mark(c, n - 1)
    } else {
        winner_among(c, n - 1)
    }
}

/// The winner of a position: the mark that fills a line, `Empty` where no
/// line is filled. Two lines filled by different marks cannot arise in
/// play; on such a grid the later line in the order of `line` decides.
pub open spec fn winner(c: Seq<FieldData>) -> FieldData {
    winner_among(c, 8)
}

/// The free cells among the first `n`, in ascending order.
pub open spec fn empty_fields_upto(c: Seq<FieldData>, n: int) -> Seq<usize>
    decreases n,
{
    if n <= 0 {
        Seq::empty()
    } else if c[n - 1] == FieldData::Empty {
        empty_fields_upto(c, n - 1).push((n - 1) as usize)
    } else {
        empty_fields_upto(c, n - 1)
    }
}

/// The free cells of a position in row-major order: the legal moves.
pub open spec fn empty_fields(c: Seq<FieldData>) -> Seq<usize> {
    empty_fields_upto(c, 9)
}

/// How many cells are free.
pub open spec fn count_empty(c: Seq<FieldData>) -> nat {
    empty_fields(c).len()
}

/// Whether no cell is free.
pub open spec fn full(c: Seq<FieldData>) -> bool {
    forall|i: int| 0 <= i < 9 ==> c[i] != FieldData::Empty
}

/// Whether the game has ended: somebody has won or no cell is free.
pub open spec fn game_over(c: Seq<FieldData>) -> bool {
    winner(c) != FieldData::Empty || full(c)
}

/// The three cells of line `k` as indices into the grid.
fn line_cells(k: usize) -> (r: (usize, usize, usize))
    requires
        k < 8,
    ensures
        (r.0 as int, r.1 as int, r.2 as int) == line(k as int),
        r.0 < 9 && r.1 < 9 && r.2 < 9,
{
    if k < 3 {
        (3 * k, 3 * k + 1, 3 * k + 2)
    } else if k < 6 {
        (k - 3, k, k + 3)
    } else if k == 6 {
        (0, 4, 8)
    } else {
        (2, 4, 6)
    }
}

/// Reads cell `i` of the grid.
pub(crate) fn field(board: &Board, i: usize) -> (r: FieldData)
    requires
        i < 9,
    ensures
        r == cells(*board)[i as int],
{
    board[i / 3][i % 3]
}

/// Returns the grid with `player` placed on the free cell `field_num`. The
/// grid handed in is left as it was, and the result differs from it on
/// that one cell only.
pub fn update_board(board: &Board, field_num: usize, player: &FieldData) -> (r: Board)
    requires
        field_num < 9,
        cells(*board)[field_num as int] == FieldData::Empty,
    ensures
        cells(r) == cells(*board).update(field_num as int, *player),
        cells(r)[field_num as int] == *player,
        forall|i: int| 0 <= i < 9 && i != field_num ==> cells(r)[i] == cells(*board)[i],
{
    let mut new_board = *board;
    new_board[field_num / 3][field_num % 3] = *player;
    assert(cells(new_board) =~= cells(*board).update(field_num as int, *player));
    new_board
}

/// Tells whether a mark may be placed on cell `field_num`: `Ok(true)` on a
/// free cell of the grid, and otherwise the reason as an error, "Move out of
/// range" beyond cell 8 and "Field already taken" on a cell that holds a
/// mark.
pub fn is_legal_move(board: &Board, field_num: usize) -> (r: Result<bool, &'static str>)
    ensures
        field_num > 8 ==> r is Err && r->Err_0@ == "Move out of range"@,
        field_num <= 8 && cells(*board)[field_num as int] != FieldData::Empty ==> r is Err
            && r->Err_0@ == "Field already taken"@,
        field_num <= 8 && cells(*board)[field_num as int] == FieldData::Empty ==> r == Ok::<
            bool,
            &'static str,
        >(true),
{
    if field_num > 8 {
        return Err("Move out of range");
    }
    if field(board, field_num) != FieldData::Empty {
        return Err("Field already taken");
    }
    Ok(true)
}

/// The character of the decimal digit `d`.
pub open spec fn digit(d: int) -> char {
    if d == 0 {
        '0'
    } else if d == 1 {
        '1'
    } else if d == 2 {
        '2'
    } else if d == 3 {
        '3'
    } else if d == 4 {
        '4'
    } else if d == 5 {
        '5'
    } else if d == 6 {
        '6'
    } else if d == 7 {
        '7'
    } else if d == 8 {
        '8'
    } else {
        '9'
    }
}

/// The decimal digits of `n`, the most significant first.
pub open spec fn decimal(n: nat) -> Seq<char>
    decreases n,
{
    if n < 10 {
        seq![digit(n as int)]
    } else {
        decimal(n / 10).push(digit((n % 10) as int))
    }
}

/// The text of one decimal digit.
fn digit_text(d: usize) -> (r: &'static str)
    requires
        d < 10,
    ensures
        r@ == seq![digit(d as int)],
{
    proof {
        reveal_strlit("0");
        reveal_strlit("1");
        reveal_strlit("2");
        reveal_strlit("3");
        reveal_strlit("4");
        reveal_strlit("5");
        reveal_strlit("6");
        reveal_strlit("7");
        reveal_strlit("8");
        reveal_strlit("9");
    }
    let text = match d {
        0 => "0",
        1 => "1",
        2 => "2",
        3 => "3",
        4 => "4",
        5 => "5",
        6 => "6",
        7 => "7",
        8 => "8",
        _ => "9",
    };
    assert(text@ =~= seq![digit(d as int)]);
    text
}

/// The number `n` in decimal digits.
fn decimal_text(n: usize) -> (r: String)
    ensures
        r@ == decimal(n as nat),
    decreases n,
{
    if n < 10 {
        String::from_str(digit_text(n))
    } else {
        let mut text = decimal_text(n / 10);
        text.append(digit_text(n % 10));
        assert(text@ =~= decimal(n as nat));
        text
    }
}

/// What the grid shows on a cell: "X" or "O" for a mark, and on a free cell
/// the number `index` in decimal digits.
pub fn display_field_value(value: &FieldData, index: &usize) -> (r: String)
    ensures
        r@ == (match *value {
            FieldData::X => seq!['X'],
            FieldData::O => seq!['O'],
            FieldData::Empty => decimal(*index as nat),
        }),
{
    proof {
        reveal_strlit("X");
        reveal_strlit("O");
    }
    match value {
        FieldData::X => {
            let text = String::from_str("X");
            assert(text@ =~= seq!['X']);
            text
        },
        FieldData::O => {
            let text = String::from_str("O");
            assert(text@ =~= seq!['O']);
            text
        },
        FieldData::Empty => decimal_text(*index),
    }
}

/// Tells who has won: the mark that fills a row, a column or a diagonal, or
/// `Empty` where no line is filled.
pub fn check_for_winners(board: &Board) -> (r: FieldData)
    ensures
        r == winner(cells(*board)),
{
    let mut found = FieldData::Empty;
    let mut k: usize = 0;
    while k < 8
        invariant
            k <= 8,
            found == winner_among(cells(*board), k as int),
        decreases 8 - k,
    {
        let (p, q, r) = line_cells(k);
        let first = field(board, p);
        if first != FieldData::Empty && first == field(board, q) && first == field(board, r) {
            found = first;
        }
        k += 1;
    }
    found
}

/// Tells whether every cell is taken.
pub fn are_fields_full(board: &Board) -> (r: bool)
    ensures
        r == full(cells(*board)),
{
    let mut i: usize = 0;
    while i < 9
        invariant
            i <= 9,
            forall|j: int| 0 <= j < i ==> cells(*board)[j] != FieldData::Empty,
        decreases 9 - i,
    {
        if field(board, i) == FieldData::Empty {
            return false;
        }
        i += 1;
    }
    true
}

/// Tells whether a further move can be played: nobody has won and a cell
/// is free.
pub fn is_game_active(board: &Board) -> (r: bool)
    ensures
        r == !game_over(cells(*board)),
{
    let game_state = check_for_winners(board);
    let is_there_winner = match game_state {
        FieldData::O => true,
        FieldData::X => true,
        FieldData::Empty => false,
    };
    let is_full = are_fields_full(board);
    !is_full && !is_there_winner
}

/// Lists the free cells in row-major order.
pub fn find_empty_fields(board: &Board) -> (r: Vec<usize>)
    ensures
        r@ == empty_fields(cells(*board)),
{
    let mut available_fields: Vec<usize> = Vec::new();
    let mut i: usize = 0;
    while i < 9
        invariant
            i <= 9,
            available_fields@ == empty_fields_upto(cells(*board), i as int),
        decreases 9 - i,
    {
        if field(board, i) == FieldData::Empty {
            available_fields.push(i);
        }
        i += 1;
    }
    available_fields
}

/// A line that one mark fills, on a grid that is free everywhere else,
/// makes that mark the winner. This holds of each of the eight lines and
/// of both marks.
pub proof fn lemma_filled_line_wins(c: Seq<FieldData>, k: int, mark: FieldData)
    requires
        c.len() == 9,
        0 <= k < 8,
        mark != FieldData::Empty,
        forall|i: int|
            0 <= i < 9 ==> c[i] == (if on_line(k, i) {
                mark
            } else {
                FieldData::Empty
            }),
    ensures
        winner(c) == mark,
{
    reveal_with_fuel(winner_among, 9);
}

/// A grid on which no line is filled by one mark has no winner; so a full
/// grid without three in a line is a draw.
pub proof fn lemma_no_filled_line_no_winner(c: Seq<FieldData>)
    requires
        forall|k: int| 0 <= k < 8 ==> line_mark(c, k) == FieldData::Empty,
    ensures
        winner(c) == FieldData::Empty,
{
    reveal_with_fuel(winner_among, 9);
}

/// The winner fills a line: where the winner is a mark, one of the eight
/// lines holds that mark on its three cells.
pub proof fn lemma_winner_fills_a_line(c: Seq<FieldData>)
    requires
        winner(c) != FieldData::Empty,
    ensures
        exists|k: int| 0 <= k < 8 && #[trigger] line_mark(c, k) == winner(c),
{
    reveal_with_fuel(winner_among, 9);
    let k = if line_mark(c, 7) != FieldData::Empty {
        7int
    } else if line_mark(c, 6) != FieldData::Empty {
        6
    } else if line_mark(c, 5) != FieldData::Empty {
        5
    } else if line_mark(c, 4) != FieldData::Empty {
        4
    } else if line_mark(c, 3) != FieldData::Empty {
        3
    } else if line_mark(c, 2) != FieldData::Empty {
        2
    } else if line_mark(c, 1) != FieldData::Empty {
        1
    } else {
        0
    };
    assert(line_mark(c, k) == winner(c));
}

/// Where every filled line holds the same mark, that mark is the winner:
/// the order in which the lines are looked at decides nothing then.
pub proof fn lemma_only_mark_on_lines_wins(c: Seq<FieldData>, k: int, mark: FieldData)
    requires
        0 <= k < 8,
        mark != FieldData::Empty,
        line_mark(c, k) == mark,
        forall|j: int|
            0 <= j < 8 ==> #[trigger] line_mark(c, j) == FieldData::Empty || line_mark(c, j)
                == mark,
    ensures
        winner(c) == mark,
{
    reveal_with_fuel(winner_among, 9);
    assert(line_mark(c, 0) == FieldData::Empty || line_mark(c, 0) == mark);
    assert(line_mark(c, 1) == FieldData::Empty || line_mark(c, 1) == mark);
    assert(line_mark(c, 2) == FieldData::Empty || line_mark(c, 2) == mark);
    assert(line_mark(c, 3) == FieldData::Empty || line_mark(c, 3) == mark);
    assert(line_mark(c, 4) == FieldData::Empty || line_mark(c, 4) == mark);
    assert(line_mark(c, 5) == FieldData::Empty || line_mark(c, 5) == mark);
    assert(line_mark(c, 6) == FieldData::Empty || line_mark(c, 6) == mark);
    assert(line_mark(c, 7) == FieldData::Empty || line_mark(c, 7) == mark);
}

/// Two grids with the same nine cells are the same grid.
pub proof fn lemma_same_cells_same_board(a: Board, b: Board)
    requires
        cells(a) == cells(b),
    ensures
        a == b,
{
    assert forall|r: int| 0 <= r < 3 implies a[r] == b[r] by {
        assert forall|q: int| 0 <= q < 3 implies a[r][q] == b[r][q] by {
            assert(cells(a)[3 * r + q] == a[r][q]);
            assert(cells(b)[3 * r + q] == b[r][q]);
        }
        assert(a[r] =~= b[r]);
    }
    assert(a =~= b);
}

/// Among the first `n` cells a free one is listed exactly once, and the
/// list ascends.
pub proof fn lemma_empty_fields_upto(c: Seq<FieldData>, n: int)
    requires
        0 <= n <= 9,
    ensures
        forall|k: int|
            0 <= k < empty_fields_upto(c, n).len() ==> {
                &&& 0 <= #[trigger] empty_fields_upto(c, n)[k] < n
                &&& c[empty_fields_upto(c, n)[k] as int] == FieldData::Empty
            },
        forall|j: int, k: int|
            0 <= j < k < empty_fields_upto(c, n).len() ==> empty_fields_upto(c, n)[j]
                < empty_fields_upto(c, n)[k],
        forall|i: int|
            0 <= i < n && c[i] == FieldData::Empty ==> empty_fields_upto(c, n).contains(
                i as usize,
            ),
        empty_fields_upto(c, n).len() <= n,
    decreases n,
{
    if n > 0 {
        lemma_empty_fields_upto(c, n - 1);
        let before = empty_fields_upto(c, n - 1);
        let now = empty_fields_upto(c, n);
        if c[n - 1] == FieldData::Empty {
            assert(now[before.len() as int] == (n - 1) as usize);
            assert forall|i: int| 0 <= i < n && c[i] == FieldData::Empty implies now.contains(
                i as usize,
            ) by {
                if i < n - 1 {
                    let k = choose|k: int| 0 <= k < before.len() && before[k] == i as usize;
                    assert(now[k] == i as usize);
                }
            }
        }
    }
}

/// A mark placed on a free cell leaves one free cell fewer: among the
/// first `n` cells, where the cell is one of them.
pub proof fn lemma_count_after_update(c: Seq<FieldData>, i: int, mark: FieldData, n: int)
    requires
        c.len() == 9,
        0 <= i < 9,
        0 <= n <= 9,
        c[i] == FieldData::Empty,
        mark != FieldData::Empty,
    ensures
        empty_fields_upto(c, n).len() == empty_fields_upto(c.update(i, mark), n).len() + (if i
            < n {
            1int
        } else {
            0int
        }),
    decreases n,
{
    if n > 0 {
        lemma_count_after_update(c, i, mark, n - 1);
    }
}

} // verus!
