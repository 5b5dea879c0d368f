use pacosakors::board::{Board, Tile};
use pacosakors::piece::{Color, Piece, PieceKind};

fn clear_board() -> Board {
    Board { tiles: [[Tile::Empty; 8]; 8] }
}

fn white(kind: PieceKind) -> Piece {
    Piece::new(kind, Color::White)
}

fn black(kind: PieceKind) -> Piece {
    Piece::new(kind, Color::Black)
}

#[test]
fn plain_move_onto_empty_square() {
    let mut board = Board::new();
    let mut expected = board;
    assert!(board.try_update((4, 1), vec![(4, 3)], Color::White));
    expected.tiles[4][1] = Tile::Empty;
    expected.tiles[4][3] = Tile::Single(white(PieceKind::Pawn));
    assert_eq!(board, expected);
}

#[test]
fn plain_move_to_unreachable_square_is_refused() {
    let mut board = Board::new();
    let before = board;
    assert!(!board.try_update((4, 1), vec![(4, 4)], Color::White));
    assert_eq!(board, before);
    assert!(!board.try_update((0, 0), vec![(0, 4)], Color::White));
    assert_eq!(board, before);
    assert!(!board.try_update((4, 1), vec![(4, 1)], Color::White));
    assert_eq!(board, before);
}

#[test]
fn move_from_empty_square_is_refused() {
    let mut board = Board::new();
    let before = board;
    assert!(!board.try_update((4, 3), vec![(4, 4)], Color::White));
    assert_eq!(board, before);
    assert!(!board.try_update((4, 3), vec![(4, 4), (4, 5)], Color::Black));
    assert_eq!(board, before);
}

#[test]
fn white_capture_forms_union() {
    let mut board = clear_board();
    let rook = white(PieceKind::Rook);
    let pawn = black(PieceKind::Pawn);
    board.tiles[0][0] = Tile::Single(rook);
    board.tiles[0][3] = Tile::Single(pawn);
    let mut expected = board;
    assert!(board.try_update((0, 0), vec![(0, 3)], Color::White));
    assert_eq!(board.tiles[0][3], Tile::Union { white: rook, black: pawn });
    assert_eq!(board.tiles[0][0], Tile::Empty);
    assert_eq!(board.get_piece((0, 3)), Some(rook));
    expected.tiles[0][0] = Tile::Empty;
    expected.tiles[0][3] = Tile::Union { white: rook, black: pawn };
    assert_eq!(board, expected);
}

#[test]
fn black_capture_fills_slots_by_colour() {
    let mut board = clear_board();
    let knight = black(PieceKind::Knight);
    let queen = white(PieceKind::Queen);
    board.tiles[1][7] = Tile::Single(knight);
    board.tiles[2][5] = Tile::Single(queen);
    assert!(board.try_update((1, 7), vec![(2, 5)], Color::Black));
    assert_eq!(board.tiles[2][5], Tile::Union { white: queen, black: knight });
    assert_eq!(board.tiles[1][7], Tile::Empty);
    assert_eq!(board.get_piece((2, 5)), Some(queen));
}

#[test]
fn king_capture_forms_union() {
    let mut board = clear_board();
    let king = white(PieceKind::King);
    let pawn = black(PieceKind::Pawn);
    board.tiles[4][0] = Tile::Single(king);
    board.tiles[4][1] = Tile::Single(pawn);
    assert!(board.try_update((4, 0), vec![(4, 1)], Color::White));
    assert_eq!(board.tiles[4][1], Tile::Union { white: king, black: pawn });
    assert_eq!(board.tiles[4][0], Tile::Empty);
}

#[test]
fn a_single_may_be_moved_by_either_player() {
    let mut board = Board::new();
    assert!(board.try_update((4, 1), vec![(4, 2)], Color::Black));
    assert_eq!(board.tiles[4][2], Tile::Single(white(PieceKind::Pawn)));
    assert_eq!(board.tiles[4][1], Tile::Empty);
}

#[test]
fn capture_of_own_piece_is_refused() {
    let mut board = clear_board();
    board.tiles[0][0] = Tile::Single(white(PieceKind::Rook));
    board.tiles[0][3] = Tile::Single(white(PieceKind::Pawn));
    let before = board;
    assert!(!board.try_update((0, 0), vec![(0, 3)], Color::White));
    assert_eq!(board, before);
}

#[test]
fn single_step_onto_union_is_refused() {
    let mut board = clear_board();
    board.tiles[0][0] = Tile::Single(white(PieceKind::Rook));
    board.tiles[0][3] =
        Tile::Union { white: white(PieceKind::Knight), black: black(PieceKind::Pawn) };
    let before = board;
    assert!(!board.try_update((0, 0), vec![(0, 3)], Color::White));
    assert_eq!(board, before);
}

#[test]
fn union_moves_as_a_whole_into_empty_square() {
    let mut board = clear_board();
    let knight = white(PieceKind::Knight);
    let rook = black(PieceKind::Rook);
    board.tiles[0][2] = Tile::Union { white: knight, black: rook };
    let mut expected = board;
    assert!(board.try_update((0, 2), vec![(1, 4)], Color::White));
    expected.tiles[0][2] = Tile::Empty;
    expected.tiles[1][4] = Tile::Union { white: knight, black: rook };
    assert_eq!(board, expected);
}

#[test]
fn union_moves_only_as_the_players_piece_moves() {
    let mut board = clear_board();
    let knight = white(PieceKind::Knight);
    let rook = black(PieceKind::Rook);
    board.tiles[0][2] = Tile::Union { white: knight, black: rook };
    let before = board;
    assert!(!board.try_update((0, 2), vec![(1, 4)], Color::Black));
    assert_eq!(board, before);
    assert!(!board.try_update((0, 2), vec![(0, 5)], Color::White));
    assert_eq!(board, before);
    assert!(board.try_update((0, 2), vec![(0, 5)], Color::Black));
    assert_eq!(board.tiles[0][5], Tile::Union { white: knight, black: rook });
    assert_eq!(board.tiles[0][2], Tile::Empty);
}

#[test]
fn union_cannot_capture_in_one_step() {
    let mut board = clear_board();
    board.tiles[0][2] =
        Tile::Union { white: white(PieceKind::Rook), black: black(PieceKind::Rook) };
    board.tiles[0][5] = Tile::Single(black(PieceKind::Pawn));
    board.tiles[3][2] =
        Tile::Union { white: white(PieceKind::Pawn), black: black(PieceKind::Pawn) };
    let before = board;
    assert!(!board.try_update((0, 2), vec![(0, 5)], Color::White));
    assert_eq!(board, before);
    assert!(!board.try_update((0, 2), vec![(3, 2)], Color::White));
    assert_eq!(board, before);
}

#[test]
fn union_goes_to_its_last_destination() {
    let mut board = clear_board();
    let rook_w = white(PieceKind::Rook);
    let rook_b = black(PieceKind::Rook);
    board.tiles[0][2] = Tile::Union { white: rook_w, black: rook_b };
    assert!(board.try_update((0, 2), vec![(5, 5), (0, 6)], Color::White));
    assert_eq!(board.tiles[0][6], Tile::Union { white: rook_w, black: rook_b });
    assert_eq!(board.tiles[0][2], Tile::Empty);
    assert_eq!(board.tiles[5][5], Tile::Empty);
}

#[test]
fn two_step_chain_capture_then_onward() {
    let mut board = clear_board();
    let mover = white(PieceKind::Pawn);
    let defender = black(PieceKind::Pawn);
    board.tiles[3][1] = Tile::Single(mover);
    board.tiles[4][2] = Tile::Single(defender);
    let mut expected = board;
    assert!(board.try_update((3, 1), vec![(4, 2), (4, 3)], Color::White));
    assert_eq!(board.tiles[3][1], Tile::Empty);
    assert_eq!(board.tiles[4][2], Tile::Union { white: mover, black: defender });
    assert_eq!(board.tiles[4][3], Tile::Empty);
    expected.tiles[3][1] = Tile::Empty;
    expected.tiles[4][2] = Tile::Union { white: mover, black: defender };
    assert_eq!(board, expected);
}

#[test]
fn chain_through_a_union_carries_its_piece_on() {
    let mut board = clear_board();
    let rook = white(PieceKind::Rook);
    let knight = white(PieceKind::Knight);
    let pawn = black(PieceKind::Pawn);
    board.tiles[0][0] = Tile::Single(rook);
    board.tiles[0][2] = Tile::Union { white: knight, black: pawn };
    let mut expected = board;
    assert!(board.try_update((0, 0), vec![(0, 2), (1, 4)], Color::White));
    expected.tiles[0][0] = Tile::Empty;
    expected.tiles[1][4] = Tile::Single(knight);
    assert_eq!(board, expected);
    assert_eq!(board.tiles[0][2], Tile::Union { white: knight, black: pawn });
}

#[test]
fn chain_for_black_carries_the_black_piece_on() {
    let mut board = clear_board();
    let rook = black(PieceKind::Rook);
    let knight = white(PieceKind::Knight);
    let bishop = black(PieceKind::Bishop);
    let target = white(PieceKind::Pawn);
    board.tiles[0][7] = Tile::Single(rook);
    board.tiles[0][4] = Tile::Union { white: knight, black: bishop };
    board.tiles[2][2] = Tile::Single(target);
    let mut expected = board;
    assert!(board.try_update((0, 7), vec![(0, 4), (2, 2)], Color::Black));
    expected.tiles[0][7] = Tile::Empty;
    expected.tiles[2][2] = Tile::Union { white: target, black: bishop };
    assert_eq!(board, expected);
}

#[test]
fn chain_through_two_unions() {
    let mut board = clear_board();
    let rook = white(PieceKind::Rook);
    let knight = white(PieceKind::Knight);
    let bishop = white(PieceKind::Bishop);
    board.tiles[0][0] = Tile::Single(rook);
    board.tiles[0][2] = Tile::Union { white: knight, black: black(PieceKind::Pawn) };
    board.tiles[1][4] = Tile::Union { white: bishop, black: black(PieceKind::Queen) };
    let mut expected = board;
    assert!(board.try_update((0, 0), vec![(0, 2), (1, 4), (3, 6)], Color::White));
    expected.tiles[0][0] = Tile::Empty;
    expected.tiles[3][6] = Tile::Single(bishop);
    assert_eq!(board, expected);
}

#[test]
fn chain_into_a_union_needs_no_legal_move() {
    let mut board = clear_board();
    let pawn = white(PieceKind::Pawn);
    let knight = white(PieceKind::Knight);
    board.tiles[0][1] = Tile::Single(pawn);
    board.tiles[6][6] = Tile::Union { white: knight, black: black(PieceKind::Pawn) };
    let mut expected = board;
    assert!(board.try_update((0, 1), vec![(6, 6), (7, 4)], Color::White));
    expected.tiles[0][1] = Tile::Empty;
    expected.tiles[7][4] = Tile::Single(knight);
    assert_eq!(board, expected);
}

#[test]
fn chain_stops_at_first_plain_landing() {
    let mut board = Board::new();
    let mut expected = board;
    assert!(board.try_update((4, 1), vec![(4, 2), (0, 4), (7, 5)], Color::White));
    expected.tiles[4][1] = Tile::Empty;
    expected.tiles[4][2] = Tile::Single(white(PieceKind::Pawn));
    assert_eq!(board, expected);
}

#[test]
fn chain_ending_on_union_is_refused() {
    let mut board = clear_board();
    board.tiles[0][0] = Tile::Single(white(PieceKind::Rook));
    board.tiles[0][2] =
        Tile::Union { white: white(PieceKind::Knight), black: black(PieceKind::Pawn) };
    board.tiles[1][4] =
        Tile::Union { white: white(PieceKind::Bishop), black: black(PieceKind::Queen) };
    let before = board;
    assert!(!board.try_update((0, 0), vec![(0, 2), (1, 4)], Color::White));
    assert_eq!(board, before);
    assert!(!board.try_update((0, 0), vec![(0, 1), (0, 2)], Color::White));
    assert_eq!(board, before);
    assert!(!board.try_update((0, 0), vec![(0, 2), (0, 2)], Color::Black));
    assert_eq!(board, before);
}

#[test]
fn chain_failing_at_second_step_leaves_board_unchanged() {
    let mut board = clear_board();
    board.tiles[0][0] = Tile::Single(white(PieceKind::Rook));
    board.tiles[0][2] =
        Tile::Union { white: white(PieceKind::Knight), black: black(PieceKind::Pawn) };
    board.tiles[1][4] = Tile::Single(white(PieceKind::Pawn));
    board.tiles[6][6] = Tile::Single(black(PieceKind::King));
    let before = board;
    assert!(!board.try_update((0, 0), vec![(0, 2), (1, 4)], Color::White));
    assert_eq!(board, before);
    for col in 0..8 {
        for row in 0..8 {
            assert_eq!(board.tiles[col][row], before.tiles[col][row]);
        }
    }
}

#[test]
fn chain_failing_at_first_step_leaves_board_unchanged() {
    let mut board = Board::new();
    let before = board;
    assert!(!board.try_update((4, 1), vec![(4, 4), (4, 5)], Color::White));
    assert_eq!(board, before);
    assert!(!board.try_update((1, 0), vec![(3, 1), (4, 3)], Color::White));
    assert_eq!(board, before);
}

#[test]
fn chain_failing_after_two_unions_leaves_board_unchanged() {
    let mut board = clear_board();
    board.tiles[0][0] = Tile::Single(white(PieceKind::Rook));
    board.tiles[0][2] =
        Tile::Union { white: white(PieceKind::Knight), black: black(PieceKind::Pawn) };
    board.tiles[1][4] =
        Tile::Union { white: white(PieceKind::Bishop), black: black(PieceKind::Queen) };
    let before = board;
    assert!(!board.try_update((0, 0), vec![(0, 2), (1, 4), (1, 6)], Color::White));
    assert_eq!(board, before);
}

#[test]
fn every_refused_turn_from_the_opening_leaves_it_unchanged() {
    let opening = Board::new();
    for col in 0..8 {
        for row in 0..8 {
            for to_col in 0..8 {
                for to_row in 0..8 {
                    let mut board = opening;
                    let ok = board.try_update((col, row), vec![(to_col, to_row)], Color::White);
                    if !ok {
                        assert_eq!(board, opening);
                    } else {
                        assert_ne!(board, opening);
                        assert_eq!(board.tiles[col][row], Tile::Empty);
                    }
                    let mut board = opening;
                    let ok = board.try_update(
                        (col, row),
                        vec![(to_col, to_row), (to_row, to_col)],
                        Color::Black,
                    );
                    if !ok {
                        assert_eq!(board, opening);
                    }
                }
            }
        }
    }
}

#[test]
fn accepted_turns_keep_unions_one_white_one_black() {
    let mut board = clear_board();
    board.tiles[0][0] = Tile::Single(white(PieceKind::Rook));
    board.tiles[0][2] =
        Tile::Union { white: white(PieceKind::Knight), black: black(PieceKind::Pawn) };
    board.tiles[2][3] = Tile::Single(black(PieceKind::Queen));
    board.tiles[7][7] = Tile::Single(black(PieceKind::King));
    assert!(board.try_update((0, 0), vec![(0, 2), (2, 3)], Color::White));
    assert!(board.try_update((7, 7), vec![(7, 6)], Color::Black));
    assert!(board.try_update((2, 3), vec![(3, 3)], Color::Black));
    for col in 0..8 {
        for row in 0..8 {
            if let Tile::Union { white, black } = board.tiles[col][row] {
                assert_eq!(white.color, Color::White);
                assert_eq!(black.color, Color::Black);
            }
        }
    }
    assert_eq!(
        board.tiles[3][3],
        Tile::Union { white: white(PieceKind::Knight), black: black(PieceKind::Queen) }
    );
}
