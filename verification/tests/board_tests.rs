use bothello1::board::Board;

#[test]
fn parsing() {
    let pieces: &[u8] = &[
        1, 1, 1, 1, 1, 1, 1, 1, //
        2, 2, 2, 2, 2, 2, 2, 2, //
        0, 0, 0, 0, 0, 0, 0, 0, //
        1, 1, 1, 1, 2, 2, 2, 2, //
        1, 1, 1, 1, 1, 1, 1, 1, //
        2, 2, 2, 2, 2, 2, 2, 2, //
        0, 0, 0, 0, 0, 0, 0, 0, //
        1, 1, 1, 1, 2, 2, 2, 2u8,
    ];
    let board = Board::from(pieces);
    let expected_board = Board {
        player_pieces: 0x0F0000FF0F0000FF,
        opponent_pieces: 0xF000FF00F000FF00,
    };

    assert_eq!(board, expected_board);
}

#[test]
fn swap_players() {
    let pieces: &[u8] = &[
        0, 0, 0, 0, 0, 0, 0, 0, //
        0, 0, 0, 0, 0, 0, 0, 0, //
        0, 0, 0, 0, 0, 0, 0, 0, //
        1, 1, 1, 1, 2, 2, 2, 2, //
        2, 2, 2, 2, 1, 1, 1, 1, //
        0, 0, 0, 0, 0, 0, 0, 0, //
        0, 0, 0, 0, 0, 0, 0, 0, //
        0, 0, 0, 0, 0, 0, 0, 0u8,
    ];
    let board = Board::from(pieces);

    let expected_pieces: &[u8] = &[
        0, 0, 0, 0, 0, 0, 0, 0, //
        0, 0, 0, 0, 0, 0, 0, 0, //
        0, 0, 0, 0, 0, 0, 0, 0, //
        2, 2, 2, 2, 1, 1, 1, 1, //
        1, 1, 1, 1, 2, 2, 2, 2, //
        0, 0, 0, 0, 0, 0, 0, 0, //
        0, 0, 0, 0, 0, 0, 0, 0, //
        0, 0, 0, 0, 0, 0, 0, 0u8,
    ];
    let expected_board = Board::from(expected_pieces);

    let swapped_board = board.swapped();
    assert_eq!(swapped_board, expected_board);
}

#[test]
fn legal_move() {
    let pieces: &[u8] = &[
        1, 0, 0, 1, 0, 0, 0, 0, //
        0, 2, 0, 2, 0, 1, 0, 0, //
        0, 0, 2, 2, 2, 0, 0, 0, //
        1, 2, 2, 0, 2, 2, 2, 1, //
        0, 2, 2, 2, 2, 2, 2, 1, //
        0, 2, 0, 1, 0, 2, 0, 0, //
        1, 0, 0, 0, 0, 0, 2, 0, //
        0, 0, 0, 0, 0, 0, 0, 1u8,
    ];
    let board = Board::from(pieces);

    let expected_pieces: &[u8] = &[
        1, 0, 0, 1, 0, 0, 0, 0, //
        0, 1, 0, 1, 0, 1, 0, 0, //
        0, 0, 1, 1, 1, 0, 0, 0, //
        1, 1, 1, 1, 1, 1, 1, 1, //
        0, 2, 1, 1, 1, 2, 2, 1, //
        0, 1, 0, 1, 0, 1, 0, 0, //
        1, 0, 0, 0, 0, 0, 1, 0, //
        0, 0, 0, 0, 0, 0, 0, 1u8,
    ];
    let expected_board = Board::from(expected_pieces);

    let new_board = board.place_piece(27).expect("expected a legal move");

    assert_eq!(new_board, expected_board);
}

#[test]
fn nothing_to_flip() {
    let pieces: &[u8] = &[
        0, 0, 0, 0, 0, 0, 0, 0, //
        0, 2, 0, 2, 0, 2, 0, 0, //
        0, 0, 2, 2, 2, 0, 0, 0, //
        2, 2, 2, 0, 2, 2, 2, 2, //
        0, 2, 2, 0, 2, 2, 2, 1, //
        0, 2, 0, 0, 0, 2, 0, 0, //
        2, 0, 0, 0, 0, 0, 2, 0, //
        0, 0, 0, 0, 0, 0, 0, 2u8,
    ];
    let board = Board::from(pieces);

    assert_eq!(board.place_piece(27), Err(()));
}

#[test]
fn occupied_by_player() {
    let pieces: &[u8] = &[
        0, 0, 0, 0, 0, 0, 0, 0, //
        0, 2, 0, 2, 0, 2, 0, 0, //
        0, 0, 2, 2, 2, 0, 0, 0, //
        2, 2, 2, 1, 2, 2, 2, 2, //
        0, 2, 2, 0, 2, 2, 2, 1, //
        0, 2, 0, 0, 0, 2, 0, 0, //
        2, 0, 0, 0, 0, 0, 2, 0, //
        0, 0, 0, 0, 0, 0, 0, 2u8,
    ];
    let board = Board::from(pieces);

    assert_eq!(board.place_piece(27), Err(()));
}

#[test]
fn occupied_by_opponent() {
    let pieces: &[u8] = &[
        0, 0, 0, 0, 0, 0, 0, 0, //
        0, 2, 0, 2, 0, 2, 0, 0, //
        0, 0, 2, 2, 2, 0, 0, 0, //
        2, 2, 2, 2, 2, 2, 2, 2, //
        0, 2, 2, 0, 2, 2, 2, 1, //
        0, 2, 0, 0, 0, 2, 0, 0, //
        2, 0, 0, 0, 0, 0, 2, 0, //
        0, 0, 0, 0, 0, 0, 0, 2u8,
    ];
    let board = Board::from(pieces);

    assert_eq!(board.place_piece(27), Err(()));
}

#[test]
fn out_of_range_index() {
    let board = Board::from(&[0u8; 64][..]);
    assert_eq!(board.place_piece(64), Err(()));
    assert_eq!(board.place_piece(1000), Err(()));
}

#[test]
fn swap_twice_restores() {
    let pieces: &[u8] = &[
        1, 0, 0, 1, 0, 0, 0, 0, //
        0, 2, 0, 2, 0, 1, 0, 0, //
        0, 0, 2, 2, 2, 0, 0, 0, //
        1, 2, 2, 0, 2, 2, 2, 1, //
        0, 2, 2, 2, 2, 2, 2, 1, //
        0, 2, 0, 1, 0, 2, 0, 0, //
        1, 0, 0, 0, 0, 0, 2, 0, //
        0, 0, 0, 0, 0, 0, 0, 1u8,
    ];
    let board = Board::from(pieces);
    assert_eq!(board.swapped().swapped(), board);
}

#[test]
fn placement_adds_exactly_one_piece() {
    let pieces: &[u8] = &[
        1, 0, 0, 1, 0, 0, 0, 0, //
        0, 2, 0, 2, 0, 1, 0, 0, //
        0, 0, 2, 2, 2, 0, 0, 0, //
        1, 2, 2, 0, 2, 2, 2, 1, //
        0, 2, 2, 2, 2, 2, 2, 1, //
        0, 2, 0, 1, 0, 2, 0, 0, //
        1, 0, 0, 0, 0, 0, 2, 0, //
        0, 0, 0, 0, 0, 0, 0, 1u8,
    ];
    let board = Board::from(pieces);
    let before = board.player_score() + board.opponent_score();
    let after_board = board.place_piece(27).expect("expected a legal move");
    let after = after_board.player_score() + after_board.opponent_score();
    assert_eq!(after, before + 1);
}

#[test]
fn short_description_leaves_rest_empty() {
    let board = Board::from(&[1u8, 2u8][..]);
    assert_eq!(board.get_player(), 0x1);
    assert_eq!(board.get_opponent(), 0x2);
}

#[test]
fn unknown_markers_and_extra_cells_ignored() {
    let mut cells = vec![0u8; 70];
    cells[0] = 3;
    cells[1] = 1;
    cells[65] = 1;
    cells[69] = 2;
    let board = Board::from(&cells[..]);
    assert_eq!(board.get_player(), 0x2);
    assert_eq!(board.get_opponent(), 0x0);
}
