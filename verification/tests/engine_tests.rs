use bothello1::alphabeta::{corner_and_sides_heuristics, get_move, heuristics, win_heuristics};
use bothello1::board::Board;

fn board_with_counts(players: usize, opponents: usize) -> Board {
    let mut cells = vec![0u8; 64];
    for i in 0..players {
        cells[i] = 1;
    }
    for i in players..players + opponents {
        cells[i] = 2;
    }
    Board::from(&cells[..])
}

#[test]
fn terminal_score_rewards_margin() {
    let board = board_with_counts(35, 29);
    assert_eq!(win_heuristics(board), 6000);
}

#[test]
fn terminal_score_penalizes_losing() {
    let board = board_with_counts(20, 44);
    assert_eq!(win_heuristics(board), -200000);
}

#[test]
fn terminal_score_penalizes_ties() {
    let board = board_with_counts(32, 32);
    assert_eq!(win_heuristics(board), -200000);
}

#[test]
fn corner_bonus_exact_values() {
    assert_eq!(corner_and_sides_heuristics(0), 0);
    // one corner, one square on its two edges
    assert_eq!(corner_and_sides_heuristics(1), 54);
    // all four corners, 15 edge squares each
    assert_eq!(corner_and_sides_heuristics(u64::MAX), 440);
}

#[test]
fn positional_score_exact_value() {
    // a lone mover piece in the upper-left corner
    let board = Board {
        player_pieces: 0x1,
        opponent_pieces: 0x0,
    };
    assert_eq!(heuristics(board), -1 + 4 * 54);
}

#[test]
fn positional_score_rewards_opponent_corner_neighbours() {
    // a lone opponent piece beside the upper-left corner
    let board = Board {
        player_pieces: 0x0,
        opponent_pieces: 0x2,
    };
    assert_eq!(heuristics(board), 1 + 4);
}

#[test]
fn depth_zero_returns_no_move() {
    let pieces: &[u8] = &[
        1, 0, 0, 1, 0, 0, 0, 0, //
        0, 2, 0, 2, 0, 1, 0, 0, //
        0, 0, 2, 2, 2, 0, 0, 0, //
        1, 2, 2, 0, 2, 2, 2, 1, //
        0, 2, 2, 2, 2, 2, 2, 1, //
        0, 2, 0, 1, 0, 2, 0, 0, //
        1, 0, 0, 0, 0, 0, 2, 0, //
        0, 0, 0, 0, 0, 0, 0, 1u8,
    ];
    let board = Board::from(pieces);
    assert_eq!(get_move(board, 0), None);
    assert_eq!(bothello1::get_move(pieces, 0), None);
}

#[test]
fn no_legal_move_returns_none() {
    let board = Board::from(&[0u8; 64][..]);
    assert_eq!(get_move(board, 3), None);
}

#[test]
fn single_capture_is_found() {
    let mut cells = vec![0u8; 64];
    cells[0] = 1;
    cells[1] = 2;
    let board = Board::from(&cells[..]);
    // the only legal placement captures the run at square 1
    assert_eq!(get_move(board, 1), Some(2));
    assert_eq!(bothello1::get_move(&cells[..], 1), Some(2));
    assert_eq!(bothello1::get_move(&cells[..], 3), Some(2));
}

#[test]
fn search_prefers_higher_scoring_move() {
    // mover at 3, opponent at 2 and 4: squares 1 and 5 are the only legal
    // placements; 5 scores higher because 1 leaves the opponent holding a
    // risky corner-adjacent square
    let mut cells = vec![0u8; 64];
    cells[3] = 1;
    cells[2] = 2;
    cells[4] = 2;
    let board = Board::from(&cells[..]);
    assert_eq!(get_move(board, 1), Some(5));
}

#[test]
fn tie_keeps_earliest_square() {
    // mover at 27, opponent at 26 and 28: squares 25 and 29 are the only
    // legal placements and score the same, so the earliest is kept
    let mut cells = vec![0u8; 64];
    cells[27] = 1;
    cells[26] = 2;
    cells[28] = 2;
    let board = Board::from(&cells[..]);
    assert_eq!(get_move(board, 1), Some(25));
}

#[test]
fn chosen_move_is_legal() {
    let pieces: &[u8] = &[
        1, 0, 0, 1, 0, 0, 0, 0, //
        0, 2, 0, 2, 0, 1, 0, 0, //
        0, 0, 2, 2, 2, 0, 0, 0, //
        1, 2, 2, 0, 2, 2, 2, 1, //
        0, 2, 2, 2, 2, 2, 2, 1, //
        0, 2, 0, 1, 0, 2, 0, 0, //
        1, 0, 0, 0, 0, 0, 2, 0, //
        0, 0, 0, 0, 0, 0, 0, 1u8,
    ];
    let board = Board::from(pieces);
    let chosen = get_move(board, 2).expect("a legal move exists");
    assert!(board.place_piece(chosen).is_ok());
}
