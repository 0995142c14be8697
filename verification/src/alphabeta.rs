//! The positional evaluator and the depth-limited negamax search with
//! alpha-beta pruning.
use vstd::prelude::*;

use crate::bits::{lemma_count_le, pop, popcount};
use crate::board::{has_move_from, place_ok, place_result, Board};

verus! {

/// 1 along the upper and left sides
pub const UL_SIDES_MASK: u64 = 0x1010101010101ff;

/// 1 along the upper and right sides
pub const UR_SIDES_MASK: u64 = 0x80808080808080ff;

/// 1 along the lower and left sides
pub const LL_SIDES_MASK: u64 = 0xff01010101010101;

/// 1 along the lower and right sides
pub const LR_SIDES_MASK: u64 = 0xff80808080808080;

/// 1 on the tiles connected to the corners
pub const AROUND_CORNER_MASK: u64 = 0x42c300000000c342;

/// The terminal score, for a mover without a legal placement: a margin
/// reward when the mover leads, else a steep fixed penalty.
pub open spec fn win_spec(b: Board) -> int {
    if pop(b.player_pieces) > pop(b.opponent_pieces) {
        1000 * (pop(b.player_pieces) - pop(b.opponent_pieces))
    } else {
        -200000
    }
}

/// The corner-and-edge bonus of one side's mask: 50 for each held corner,
/// plus 4 per held square along the two edges radiating from that corner.
pub open spec fn corner_spec(pieces: u64) -> int {
    (if pieces & 1 != 0 {
        50int + 4 * (pop(pieces & UL_SIDES_MASK) as int)
    } else {
        0int
    }) + (if pieces & 128 != 0 {
        50int + 4 * (pop(pieces & UR_SIDES_MASK) as int)
    } else {
        0int
    }) + (if pieces & 0x100000000000000 != 0 {
        50int + 4 * (pop(pieces & LL_SIDES_MASK) as int)
    } else {
        0int
    }) + (if pieces & 0x8000000000000000 != 0 {
        50int + 4 * (pop(pieces & LR_SIDES_MASK) as int)
    } else {
        0int
    })
}

/// The positional score, from the mover's perspective: an anti-greedy base
/// term, the asymmetrically weighted corner-and-edge bonuses, and a reward
/// for opponent pieces on the risky squares around the corners.
pub open spec fn heur_spec(b: Board) -> int {
    pop(b.opponent_pieces) - pop(b.player_pieces) + 4 * corner_spec(b.player_pieces) - corner_spec(
        b.opponent_pieces,
    ) + 4 * (pop(b.opponent_pieces & AROUND_CORNER_MASK) as int)
}

/// The board handed to the other side after a placement at square `i`.
pub open spec fn next_board(b: Board, i: u64) -> Board {
    place_result(b, i).swapped_spec()
}

/// The exact negamax value of a position at the given remaining depth:
/// the positional score at the depth floor, the terminal score when the
/// mover has no placement, and otherwise the best negated child value.
pub open spec fn negamax_value(b: Board, d: nat) -> int
    decreases d, 0int,
{
    if d == 0 {
        heur_spec(b)
    } else if !has_move_from(b, 0) {
        win_spec(b)
    } else {
        best_from(b, (d - 1) as nat, 0)
    }
}

/// The best negated child value over the placements at or above `idx`,
/// or a sentinel below every reachable value when none is legal.
pub open spec fn best_from(b: Board, d: nat, idx: int) -> int
    decreases d, 65 - idx,
{
    if idx < 0 || idx >= 64 {
        -300000
    } else {
        let rest = best_from(b, d, idx + 1);
        if place_ok(b, idx) {
            let w = -negamax_value(next_board(b, idx as u64), d);
            if w >= rest {
                w
            } else {
                rest
            }
        } else {
            rest
        }
    }
}

/// What a placement at `j` is worth to the mover: the negated value of the
/// resulting position for the other side.
pub open spec fn move_score(b: Board, d: nat, j: int) -> int {
    -negamax_value(next_board(b, j as u64), d)
}

/// Square `i` is the engine's choice at the given depth: a legal placement
/// whose score no legal placement beats, and that every earlier legal
/// placement scores strictly below (ties keep the earliest square).
pub open spec fn chosen_at(b: Board, depth: u8, i: int) -> bool {
    let d = (depth - 1) as nat;
    &&& place_ok(b, i)
    &&& forall|j: int|
        0 <= j < 64 && #[trigger] place_ok(b, j) ==> move_score(b, d, j) <= move_score(b, d, i)
    &&& forall|j: int|
        0 <= j < i && #[trigger] place_ok(b, j) ==> move_score(b, d, j) < move_score(b, d, i)
}

/// The corner-and-edge bonus stays small: at most 50 + 4 * 64 per corner.
proof fn lemma_corner_bounds(pieces: u64)
    ensures
        0 <= corner_spec(pieces) <= 1424,
{
    lemma_count_le(pieces & UL_SIDES_MASK, 64);
    lemma_count_le(pieces & UR_SIDES_MASK, 64);
    lemma_count_le(pieces & LL_SIDES_MASK, 64);
    lemma_count_le(pieces & LR_SIDES_MASK, 64);
}

/// The positional score stays far below the terminal scores.
proof fn lemma_heur_bounds(b: Board)
    ensures
        -10000 <= heur_spec(b) <= 10000,
{
    lemma_count_le(b.player_pieces, 64);
    lemma_count_le(b.opponent_pieces, 64);
    lemma_count_le(b.opponent_pieces & AROUND_CORNER_MASK, 64);
    lemma_corner_bounds(b.player_pieces);
    lemma_corner_bounds(b.opponent_pieces);
}

/// The terminal score lies between the fixed penalty and the largest margin
/// reward.
proof fn lemma_win_bounds(b: Board)
    ensures
        -200000 <= win_spec(b) <= 64000,
{
    lemma_count_le(b.player_pieces, 64);
    lemma_count_le(b.opponent_pieces, 64);
}

/// Every position's value lies between the fixed penalty and its negation.
pub proof fn lemma_value_bounds(b: Board, d: nat)
    ensures
        -200000 <= negamax_value(b, d) <= 200000,
    decreases d, 0int,
{
    if d == 0 {
        lemma_heur_bounds(b);
    } else if !has_move_from(b, 0) {
        lemma_win_bounds(b);
    } else {
        lemma_best_from_spec(b, (d - 1) as nat, 0);
    }
}

/// How `best_from` relates to the individual placements: it dominates every
/// legal placement's score at or above `idx`, it is attained by one of them
/// when one exists, and it is the sentinel otherwise.
proof fn lemma_best_from_spec(b: Board, d: nat, idx: int)
    requires
        0 <= idx <= 64,
    ensures
        !has_move_from(b, idx) ==> best_from(b, d, idx) == -300000,
        has_move_from(b, idx) ==> -200000 <= best_from(b, d, idx) <= 200000,
        forall|j: int|
            idx <= j < 64 && #[trigger] place_ok(b, j) ==> move_score(b, d, j) <= best_from(
                b,
                d,
                idx,
            ),
        has_move_from(b, idx) ==> exists|j: int|
            idx <= j < 64 && #[trigger] place_ok(b, j) && best_from(b, d, idx) == move_score(
                b,
                d,
                j,
            ),
    decreases d, 65 - idx,
{
    if idx < 64 {
        lemma_best_from_spec(b, d, idx + 1);
        if place_ok(b, idx) {
            lemma_value_bounds(next_board(b, idx as u64), d);
            assert(has_move_from(b, idx));
        } else {
            if has_move_from(b, idx) {
                let j0: int = choose|j: int| idx <= j < 64 && #[trigger] place_ok(b, j);
                assert(idx + 1 <= j0);
                assert(has_move_from(b, idx + 1));
            }
            if has_move_from(b, idx + 1) {
                let j1: int = choose|j: int| idx + 1 <= j < 64 && #[trigger] place_ok(b, j);
                assert(place_ok(b, j1));
                assert(has_move_from(b, idx));
            }
        }
    }
}

/// Computes the terminal score of a position whose mover has no placement;
/// see `win_spec`.
pub fn win_heuristics(board: Board) -> (r: i32)
    ensures
        r as int == win_spec(board),
{
    let player_score: i32 = board.player_score() as i32;
    let opponent_score: i32 = board.opponent_score() as i32;
    if player_score > opponent_score {
        1000 * (player_score - opponent_score)
    } else {
        -200000
    }
}

/// Computes the positional score of a position; see `heur_spec`.
pub fn heuristics(board: Board) -> (r: i32)
    ensures
        r as int == heur_spec(board),
{
    proof {
        lemma_corner_bounds(board.player_pieces);
        lemma_corner_bounds(board.opponent_pieces);
    }
    let mut score: i32 = board.opponent_score() as i32 - board.player_score() as i32;

    score = score + corner_and_sides_heuristics(board.get_player()) * 4;
    score = score - corner_and_sides_heuristics(board.get_opponent());

    score + (popcount(board.get_opponent() & AROUND_CORNER_MASK) as i32) * 4
}

/// Computes one side's corner-and-edge bonus; see `corner_spec`.
pub fn corner_and_sides_heuristics(pieces: u64) -> (r: i32)
    ensures
        r as int == corner_spec(pieces),
        0 <= r <= 1424,
{
    let mut score: i32 = 0;

    // upper left
    if pieces & 1 != 0 {
        score = score + 50 + (popcount(pieces & UL_SIDES_MASK) as i32) * 4;
    }
    // upper right
    if pieces & 128 != 0 {
        score = score + 50 + (popcount(pieces & UR_SIDES_MASK) as i32) * 4;
    }
    // lower left
    if pieces & 0x100000000000000 != 0 {
        score = score + 50 + (popcount(pieces & LL_SIDES_MASK) as i32) * 4;
    }
    // lower right
    if pieces & 0x8000000000000000 != 0 {
        score = score + 50 + (popcount(pieces & LR_SIDES_MASK) as i32) * 4;
    }

    score
}

/// The negamax search under a fail-hard alpha-beta window: exact inside the
/// window, clipped to the window's edge outside it.
fn alphabeta(board: Board, depth: u8, alpha: i32, beta: i32) -> (r: i32)
    requires
        -i32::MAX <= alpha < beta <= i32::MAX,
    ensures
        -i32::MAX <= r,
        negamax_value(board, depth as nat) <= alpha as int ==> r <= alpha,
        (alpha as int) < negamax_value(board, depth as nat) < (beta as int) ==> r as int
            == negamax_value(board, depth as nat),
        negamax_value(board, depth as nat) >= beta as int ==> r >= beta,
    decreases depth,
{
    if depth == 0 {
        proof {
            lemma_heur_bounds(board);
        }
        return heuristics(board);
    }
    let ghost v: int = negamax_value(board, depth as nat);
    let ghost d: nat = (depth - 1) as nat;

    let mut a: i32 = alpha;
    let mut made_a_move: bool = false;
    let mut cut: bool = false;
    let mut index: usize = 0;

    while index < 64 && !cut
        invariant
            -i32::MAX <= alpha < beta <= i32::MAX,
            depth >= 1,
            d == (depth - 1) as nat,
            v == negamax_value(board, depth as nat),
            index <= 64,
            alpha <= a,
            !cut ==> a < beta,
            made_a_move <==> exists|j: int| 0 <= j < index && #[trigger] place_ok(board, j),
            !cut ==> forall|j: int|
                0 <= j < index && #[trigger] place_ok(board, j) ==> move_score(board, d, j)
                    <= a as int,
            !cut ==> (a == alpha || exists|j: int|
                0 <= j < index && #[trigger] place_ok(board, j) && a as int == move_score(
                    board,
                    d,
                    j,
                )),
            cut ==> beta <= a && v >= beta as int && made_a_move,
        decreases 64 - index,
    {
        match board.place_piece(index) {
            Ok(new_board) => {
                let child = new_board.swapped();
                proof {
                    assert(child == next_board(board, index as u64));
                    lemma_value_bounds(child, d);
                    lemma_best_from_spec(board, d, 0);
                }
                let ghost vj: int = negamax_value(child, d);
                let ghost a_old: i32 = a;
                let r: i32 = alphabeta(child, depth - 1, -beta, -a);
                let cand: i32 = -r;
                if cand > a {
                    a = cand;
                }
                made_a_move = true;
                if beta <= a {
                    cut = true;
                }
                proof {
                    if vj >= -(a_old as int) {
                        assert(r >= -a_old);
                        assert(a == a_old);
                    } else if vj > -(beta as int) {
                        assert(r as int == vj);
                    } else {
                        assert(r <= -beta);
                        assert(cut);
                        assert(move_score(board, d, index as int) == -vj);
                        assert(v >= -vj);
                    }
                }
            }
            Err(_) => {
                proof {
                    assert(!place_ok(board, index as int));
                }
            }
        }
        index = index + 1;
    }

    if !made_a_move {
        proof {
            lemma_win_bounds(board);
            assert(!has_move_from(board, 0));
        }
        win_heuristics(board)
    } else {
        proof {
            lemma_best_from_spec(board, d, 0);
            assert(has_move_from(board, 0));
            if !cut {
                assert(v == best_from(board, d, 0));
                let jw: int = choose|j: int|
                    0 <= j < 64 && #[trigger] place_ok(board, j) && best_from(board, d, 0)
                        == move_score(board, d, j);
                assert(move_score(board, d, jw) <= a as int);
                assert(v <= a as int);
            }
        }
        a
    }
}

/// Computes the best placement for the side to move, searching `depth` plies
/// ahead. Returns the chosen square, or `None` when `depth` is zero or no
/// placement is legal; ties keep the earliest square.
pub fn get_move(board: Board, depth: u8) -> (r: Option<usize>)
    ensures
        depth == 0 ==> r is None,
        depth > 0 ==> ((r is None) <==> !has_move_from(board, 0)),
        r matches Some(i) ==> depth > 0 && i < 64 && chosen_at(board, depth, i as int),
{
    if depth == 0 {
        return None;
    }
    let ghost d: nat = (depth - 1) as nat;

    let mut best_position: Option<usize> = None;
    let mut score: i32 = -i32::MAX;
    let mut best_score: i32 = score;
    let mut index: usize = 0;

    while index < 64
        invariant
            depth >= 1,
            d == (depth - 1) as nat,
            index <= 64,
            best_score == score,
            -i32::MAX <= score <= 200000,
            best_position is None ==> score == -i32::MAX && forall|j: int|
                0 <= j < index ==> !place_ok(board, j),
            best_position matches Some(i) ==> {
                &&& (i as int) < index
                &&& i < 64
                &&& place_ok(board, i as int)
                &&& score as int == move_score(board, d, i as int)
                &&& forall|j: int|
                    0 <= j < index && #[trigger] place_ok(board, j) ==> move_score(board, d, j)
                        <= score as int
                &&& forall|j: int|
                    0 <= j < i && #[trigger] place_ok(board, j) ==> move_score(board, d, j)
                        < score as int
            },
        decreases 64 - index,
    {
        match board.place_piece(index) {
            Ok(new_board) => {
                let child = new_board.swapped();
                proof {
                    assert(child == next_board(board, index as u64));
                    lemma_value_bounds(child, d);
                }
                let ghost vj: int = negamax_value(child, d);
                let ghost score_old: i32 = score;
                let r: i32 = alphabeta(child, depth - 1, -i32::MAX, -score);
                let cand: i32 = -r;
                if cand > score {
                    score = cand;
                }
                if score > best_score {
                    best_score = score;
                    best_position = Some(index);
                }
                proof {
                    if vj >= -(score_old as int) {
                        assert(r >= -score_old);
                        assert(score == score_old);
                        assert(move_score(board, d, index as int) <= score as int);
                    } else {
                        assert(r as int == vj);
                    }
                }
            }
            Err(_) => {
                proof {
                    assert(!place_ok(board, index as int));
                }
            }
        }
        index = index + 1;
    }
    best_position
}

} // verus!
