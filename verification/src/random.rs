//! Chance: the draws that the game takes from the `rand` crate, and what
//! the library makes of them.

use crate::board::{
    cells, count_empty, empty_fields, find_empty_fields, full, lemma_empty_fields_upto, Board,
    FieldData,
};
use rand::Rng;
use vstd::prelude::*;

verus! {

/// Draws a number from `0..n` with `rand::Rng::gen_range` on the generator
/// that `rand::thread_rng` hands out. Trusted, not proved: the draw is a
/// number of the range, so less than `n`. Which one comes is left open. An
/// empty range, on which `gen_range` panics, is ruled out. The generator
/// takes its seed from the system when a thread first asks for it, and
/// panics where the system gives none.
#[verifier::external_body]
fn random_below(n: usize) -> (r: usize)
    requires
        n > 0,
    ensures
        r < n,
{
    rand::thread_rng().gen_range(0..n)
}

/// Draws a byte with `rand::Rng::gen` on the generator that
/// `rand::thread_rng` hands out. Trusted, and nothing is claimed of the
/// byte: every value can come.
#[verifier::external_body]
fn random_byte() -> (r: u8) {
    rand::thread_rng().gen()
}

/// The free cell that a draw of `draw` selects: the free cells are counted
/// in row-major order, from 0.
pub fn pick_empty_field(board: &Board, draw: usize) -> (r: usize)
    requires
        draw < count_empty(cells(*board)),
    ensures
        r == empty_fields(cells(*board))[draw as int],
        r < 9,
        cells(*board)[r as int] == FieldData::Empty,
{
    let available_fields = find_empty_fields(board);
    proof {
        lemma_empty_fields_upto(cells(*board), 9);
    }
    available_fields[draw]
}

/// A free cell chosen by chance, each free cell being as likely as any
/// other. The grid must have a free cell.
pub fn random_bot_move(board: &Board) -> (r: usize)
    requires
        !full(cells(*board)),
    ensures
        r < 9,
        cells(*board)[r as int] == FieldData::Empty,
{
    let available_fields = find_empty_fields(board);
    proof {
        lemma_empty_fields_upto(cells(*board), 9);
        let i = choose|i: int| 0 <= i < 9 && cells(*board)[i] == FieldData::Empty;
        assert(available_fields@.contains(i as usize));
    }
    let draw = random_below(available_fields.len());
    pick_empty_field(board, draw)
}

/// The player that a drawn byte lets begin: `X` on an even byte, `O` on an
/// odd one.
pub fn first_player_for(num: u8) -> (r: FieldData)
    ensures
        r == (if num % 2 == 0 {
            FieldData::X
        } else {
            FieldData::O
        }),
{
    if num % 2 == 0 {
        FieldData::X
    } else {
        FieldData::O
    }
}

/// Draws the player that begins: `X` or `O`, by chance.
pub fn get_first_player() -> (r: FieldData)
    ensures
        r == FieldData::X || r == FieldData::O,
{
    let num = random_byte();
    first_player_for(num)
}

} // verus!
