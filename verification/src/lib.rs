//! A depth-limited Othello (Reversi) engine: a bitboard rules engine, a
//! positional evaluator, and a negamax search with alpha-beta pruning.
//!
//! A position is two disjoint 64-bit occupancy masks, one for the side to
//! move and one for the opponent; square `i` (row-major, `row * 8 + col`) is
//! bit `i`. Every transformation returns a new value.
use vstd::prelude::*;

pub mod alphabeta;
pub mod bits;
pub mod board;

verus! {

/// Computes the best placement for the side to move, from a flat description
/// of the position: one cell marker per square (0 = empty, 1 = mover,
/// 2 = opponent), in row-major order. Returns the chosen square index, or
/// `None` when `depth` is zero or no legal placement exists.
pub fn get_move(current_board: &[u8], depth: u8) -> (r: Option<u8>)
    ensures
        ({
            let b = board::board_of(current_board@);
            &&& depth == 0 ==> r is None
            &&& depth > 0 ==> ((r is None) <==> !board::has_move_from(b, 0))
            &&& r matches Some(i) ==> {
                &&& depth > 0
                &&& board::place_ok(b, i as int)
                &&& alphabeta::chosen_at(b, depth, i as int)
            }
        }),
{
    let board = board::Board::from_cells(current_board);
    match alphabeta::get_move(board, depth) {
        Some(index) => Some(index as u8),
        None => None,
    }
}

} // verus!
