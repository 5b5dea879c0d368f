use pacosakors::board::{Board, Tile};
use pacosakors::moves::{holds, MoveSet};
use pacosakors::piece::{Color, Piece, PieceKind};

fn bare_board() -> Board {
    Board { tiles: [[Tile::Empty; 8]; 8] }
}

fn lone(kind: PieceKind, color: Color) -> Tile {
    Tile::Single(Piece::new(kind, color))
}

fn a_union(white: PieceKind, black: PieceKind) -> Tile {
    Tile::Union { white: Piece::new(white, Color::White), black: Piece::new(black, Color::Black) }
}

fn sorted(list: &[(usize, usize)]) -> Vec<(usize, usize)> {
    let mut copy = list.to_vec();
    copy.sort();
    copy
}

#[test]
fn move_set_starts_empty() {
    let moves = MoveSet::new();
    assert!(moves.empty.is_empty());
    assert!(moves.enemy.is_empty());
    assert!(moves.union.is_empty());
    assert!(!moves.lands_on((0, 0)));
}

#[test]
fn holds_finds_only_what_is_there() {
    let list = vec![(1, 2), (3, 4)];
    assert!(holds(&list, (1, 2)));
    assert!(holds(&list, (3, 4)));
    assert!(!holds(&list, (2, 1)));
    assert!(!holds(&list, (1, 4)));
    assert!(!holds(&Vec::new(), (0, 0)));
}

#[test]
fn lands_on_looks_in_empty_and_enemy_but_not_union() {
    let moves = MoveSet { empty: vec![(0, 1)], enemy: vec![(2, 3)], union: vec![(4, 5)] };
    assert!(moves.lands_on((0, 1)));
    assert!(moves.lands_on((2, 3)));
    assert!(!moves.lands_on((4, 5)));
}

#[test]
fn pawn_from_a2_on_open_file() {
    let mut board = bare_board();
    let pawn = Piece::new(PieceKind::Pawn, Color::White);
    board.tiles[0][1] = Tile::Single(pawn);
    let moves = pawn.valid_moves((0, 1), &board);
    assert_eq!(moves.empty, vec![(0, 2), (0, 3)]);
    assert!(moves.enemy.is_empty());
    assert!(moves.union.is_empty());
}

#[test]
fn pawn_from_a2_in_opening_position() {
    let board = Board::new();
    let pawn = Piece::new(PieceKind::Pawn, Color::White);
    let moves = pawn.valid_moves((0, 1), &board);
    assert_eq!(moves.empty, vec![(0, 2), (0, 3)]);
    assert!(moves.enemy.is_empty());
    assert!(moves.union.is_empty());
}

#[test]
fn pawn_off_starting_rank_steps_once() {
    let mut board = bare_board();
    let pawn = Piece::new(PieceKind::Pawn, Color::White);
    board.tiles[0][2] = Tile::Single(pawn);
    let moves = pawn.valid_moves((0, 2), &board);
    assert_eq!(moves.empty, vec![(0, 3)]);
    assert!(moves.enemy.is_empty());
    assert!(moves.union.is_empty());
    for row in 2..7 {
        let moves = pawn.valid_moves((5, row), &bare_board());
        assert_eq!(moves.empty, vec![(5, row + 1)]);
    }
}

#[test]
fn black_pawn_moves_down_the_board() {
    let board = bare_board();
    let pawn = Piece::new(PieceKind::Pawn, Color::Black);
    assert_eq!(pawn.valid_moves((3, 6), &board).empty, vec![(3, 5), (3, 4)]);
    assert_eq!(pawn.valid_moves((3, 5), &board).empty, vec![(3, 4)]);
    assert_eq!(pawn.valid_moves((3, 1), &board).empty, vec![(3, 0)]);
    assert!(pawn.valid_moves((3, 0), &board).empty.is_empty());
}

#[test]
fn white_pawn_on_last_row_has_no_moves() {
    let board = bare_board();
    let pawn = Piece::new(PieceKind::Pawn, Color::White);
    let moves = pawn.valid_moves((2, 7), &board);
    assert_eq!(moves, MoveSet::new());
}

#[test]
fn pawn_blocked_directly_ahead() {
    let mut board = bare_board();
    let pawn = Piece::new(PieceKind::Pawn, Color::White);
    board.tiles[4][2] = lone(PieceKind::Knight, Color::Black);
    let moves = pawn.valid_moves((4, 1), &board);
    assert_eq!(moves, MoveSet::new());
    board.tiles[4][2] = a_union(PieceKind::Rook, PieceKind::Rook);
    assert_eq!(pawn.valid_moves((4, 1), &board), MoveSet::new());
}

#[test]
fn pawn_double_step_needs_both_squares_empty() {
    let mut board = bare_board();
    let pawn = Piece::new(PieceKind::Pawn, Color::White);
    board.tiles[4][3] = lone(PieceKind::Knight, Color::White);
    assert_eq!(pawn.valid_moves((4, 1), &board).empty, vec![(4, 2)]);
}

#[test]
fn pawn_takes_diagonally_forward() {
    let mut board = bare_board();
    let pawn = Piece::new(PieceKind::Pawn, Color::White);
    board.tiles[2][3] = lone(PieceKind::Bishop, Color::Black);
    board.tiles[4][3] = a_union(PieceKind::Rook, PieceKind::Queen);
    board.tiles[2][1] = lone(PieceKind::Bishop, Color::Black);
    let moves = pawn.valid_moves((3, 2), &board);
    assert_eq!(moves.empty, vec![(3, 3)]);
    assert_eq!(moves.enemy, vec![(2, 3)]);
    assert_eq!(moves.union, vec![(4, 3)]);
}

#[test]
fn pawn_does_not_take_its_own_side() {
    let mut board = bare_board();
    let pawn = Piece::new(PieceKind::Pawn, Color::Black);
    board.tiles[2][4] = lone(PieceKind::Bishop, Color::Black);
    board.tiles[4][4] = lone(PieceKind::Bishop, Color::White);
    let moves = pawn.valid_moves((3, 5), &board);
    assert_eq!(moves.empty, vec![(3, 4)]);
    assert_eq!(moves.enemy, vec![(4, 4)]);
    assert!(moves.union.is_empty());
}

#[test]
fn pawn_on_the_edge_takes_inward_only() {
    let mut board = bare_board();
    let pawn = Piece::new(PieceKind::Pawn, Color::White);
    board.tiles[1][3] = lone(PieceKind::Rook, Color::Black);
    board.tiles[6][3] = lone(PieceKind::Rook, Color::Black);
    assert_eq!(pawn.valid_moves((0, 2), &board).enemy, vec![(1, 3)]);
    assert_eq!(pawn.valid_moves((7, 2), &board).enemy, vec![(6, 3)]);
}

#[test]
fn knight_in_the_middle_of_an_open_board() {
    let board = bare_board();
    let knight = Piece::new(PieceKind::Knight, Color::White);
    let moves = knight.valid_moves((3, 3), &board);
    assert_eq!(
        moves.empty,
        vec![(5, 4), (4, 5), (4, 1), (5, 2), (2, 5), (1, 4), (2, 1), (1, 2)]
    );
    assert!(moves.enemy.is_empty());
    assert!(moves.union.is_empty());
}

#[test]
fn knight_from_b1_in_opening_position() {
    let board = Board::new();
    let knight = Piece::new(PieceKind::Knight, Color::White);
    let moves = knight.valid_moves((1, 0), &board);
    assert_eq!(moves.empty, vec![(2, 2), (0, 2)]);
    assert!(moves.enemy.is_empty());
    assert!(moves.union.is_empty());
}

#[test]
fn knight_sorts_targets_by_occupant() {
    let mut board = bare_board();
    let knight = Piece::new(PieceKind::Knight, Color::Black);
    board.tiles[2][1] = lone(PieceKind::Pawn, Color::White);
    board.tiles[1][2] = lone(PieceKind::Pawn, Color::Black);
    board.tiles[2][0] = a_union(PieceKind::Pawn, PieceKind::Pawn);
    let moves = knight.valid_moves((0, 0), &board);
    assert!(moves.empty.is_empty());
    assert_eq!(moves.enemy, vec![(2, 1)]);
    assert!(moves.union.is_empty());
    let moves = knight.valid_moves((0, 1), &board);
    assert_eq!(moves.empty, vec![(2, 2), (1, 3)]);
    assert_eq!(moves.union, vec![(2, 0)]);
    assert!(moves.enemy.is_empty());
}

#[test]
fn rook_on_open_rank_and_file() {
    let mut board = bare_board();
    let rook = Piece::new(PieceKind::Rook, Color::White);
    board.tiles[3][3] = Tile::Single(rook);
    let moves = rook.valid_moves((3, 3), &board);
    assert_eq!(
        moves.empty,
        vec![
            (3, 4),
            (3, 5),
            (3, 6),
            (3, 7),
            (3, 2),
            (3, 1),
            (3, 0),
            (4, 3),
            (5, 3),
            (6, 3),
            (7, 3),
            (2, 3),
            (1, 3),
            (0, 3)
        ]
    );
    assert!(moves.enemy.is_empty());
    assert!(moves.union.is_empty());
}

#[test]
fn rook_covers_rank_and_file_from_every_square() {
    let board = bare_board();
    let rook = Piece::new(PieceKind::Rook, Color::Black);
    for col in 0..8 {
        for row in 0..8 {
            let moves = rook.valid_moves((col, row), &board);
            let mut expected = Vec::new();
            for k in 0..8 {
                if k != row {
                    expected.push((col, k));
                }
                if k != col {
                    expected.push((k, row));
                }
            }
            assert_eq!(sorted(&moves.empty), sorted(&expected));
            assert!(moves.enemy.is_empty());
            assert!(moves.union.is_empty());
        }
    }
}

#[test]
fn rook_ray_is_capped_by_enemy_pawn() {
    let mut board = bare_board();
    let rook = Piece::new(PieceKind::Rook, Color::White);
    board.tiles[0][0] = Tile::Single(rook);
    board.tiles[0][3] = lone(PieceKind::Pawn, Color::Black);
    let moves = rook.valid_moves((0, 0), &board);
    assert_eq!(
        moves.empty,
        vec![(0, 1), (0, 2), (1, 0), (2, 0), (3, 0), (4, 0), (5, 0), (6, 0), (7, 0)]
    );
    assert_eq!(moves.enemy, vec![(0, 3)]);
    assert!(moves.union.is_empty());
    for row in 4..8 {
        assert!(!moves.lands_on((0, row)));
    }
}

#[test]
fn rook_ray_stops_before_own_piece_and_at_union() {
    let mut board = bare_board();
    let rook = Piece::new(PieceKind::Rook, Color::White);
    board.tiles[3][5] = lone(PieceKind::Pawn, Color::White);
    board.tiles[5][3] = a_union(PieceKind::Knight, PieceKind::Bishop);
    let moves = rook.valid_moves((3, 3), &board);
    assert_eq!(
        moves.empty,
        vec![(3, 4), (3, 2), (3, 1), (3, 0), (4, 3), (2, 3), (1, 3), (0, 3)]
    );
    assert!(moves.enemy.is_empty());
    assert_eq!(moves.union, vec![(5, 3)]);
}

#[test]
fn rook_in_opening_position_is_shut_in() {
    let board = Board::new();
    let rook = Piece::new(PieceKind::Rook, Color::White);
    assert_eq!(rook.valid_moves((0, 0), &board), MoveSet::new());
}

#[test]
fn bishop_on_open_diagonals() {
    let board = bare_board();
    let bishop = Piece::new(PieceKind::Bishop, Color::White);
    let moves = bishop.valid_moves((2, 1), &board);
    assert_eq!(
        moves.empty,
        vec![(3, 2), (4, 3), (5, 4), (6, 5), (7, 6), (3, 0), (1, 2), (0, 3), (1, 0)]
    );
    assert!(moves.enemy.is_empty());
    assert!(moves.union.is_empty());
}

#[test]
fn bishop_takes_first_enemy_on_diagonal() {
    let mut board = bare_board();
    let bishop = Piece::new(PieceKind::Bishop, Color::Black);
    board.tiles[4][4] = lone(PieceKind::Queen, Color::White);
    board.tiles[5][5] = lone(PieceKind::Queen, Color::White);
    let moves = bishop.valid_moves((2, 2), &board);
    assert_eq!(moves.enemy, vec![(4, 4)]);
    assert_eq!(moves.empty, vec![(3, 3), (3, 1), (4, 0), (1, 3), (0, 4), (1, 1), (0, 0)]);
}

#[test]
fn queen_joins_diagonals_and_lines() {
    let board = bare_board();
    let queen = Piece::new(PieceKind::Queen, Color::White);
    let moves = queen.valid_moves((0, 0), &board);
    assert_eq!(
        moves.empty,
        vec![
            (1, 1),
            (2, 2),
            (3, 3),
            (4, 4),
            (5, 5),
            (6, 6),
            (7, 7),
            (0, 1),
            (0, 2),
            (0, 3),
            (0, 4),
            (0, 5),
            (0, 6),
            (0, 7),
            (1, 0),
            (2, 0),
            (3, 0),
            (4, 0),
            (5, 0),
            (6, 0),
            (7, 0)
        ]
    );
    assert!(moves.enemy.is_empty());
    assert!(moves.union.is_empty());
}

#[test]
fn queen_is_bishop_then_rook() {
    let mut board = Board::new();
    board.tiles[3][1] = Tile::Empty;
    board.tiles[4][1] = a_union(PieceKind::Pawn, PieceKind::Pawn);
    board.tiles[2][4] = lone(PieceKind::Knight, Color::Black);
    let pos = (3, 3);
    let queen = Piece::new(PieceKind::Queen, Color::White);
    let bishop = Piece::new(PieceKind::Bishop, Color::White);
    let rook = Piece::new(PieceKind::Rook, Color::White);
    let q = queen.valid_moves(pos, &board);
    let b = bishop.valid_moves(pos, &board);
    let r = rook.valid_moves(pos, &board);
    assert_eq!(q.empty, [b.empty, r.empty].concat());
    assert_eq!(q.enemy, [b.enemy, r.enemy].concat());
    assert_eq!(q.union, [b.union, r.union].concat());
}

#[test]
fn king_steps_one_square_each_way() {
    let board = bare_board();
    let king = Piece::new(PieceKind::King, Color::White);
    let moves = king.valid_moves((4, 4), &board);
    assert_eq!(
        moves.empty,
        vec![(5, 5), (5, 3), (3, 5), (3, 3), (4, 5), (4, 3), (5, 4), (3, 4)]
    );
    assert!(moves.enemy.is_empty());
    assert!(moves.union.is_empty());
    let moves = king.valid_moves((0, 0), &board);
    assert_eq!(moves.empty, vec![(1, 1), (0, 1), (1, 0)]);
}

#[test]
fn king_lists_enemy_squares_as_empty_and_skips_unions() {
    let mut board = bare_board();
    let king = Piece::new(PieceKind::King, Color::White);
    board.tiles[4][1] = lone(PieceKind::Pawn, Color::Black);
    board.tiles[3][0] = lone(PieceKind::Queen, Color::White);
    board.tiles[5][1] = a_union(PieceKind::Pawn, PieceKind::Pawn);
    let moves = king.valid_moves((4, 0), &board);
    assert_eq!(moves.empty, vec![(3, 1), (4, 1), (5, 0)]);
    assert!(moves.enemy.is_empty());
    assert!(moves.union.is_empty());
}

#[test]
fn valid_moves_is_a_function_of_its_arguments() {
    let mut board = Board::new();
    board.tiles[3][3] = a_union(PieceKind::Knight, PieceKind::Rook);
    let queen = Piece::new(PieceKind::Queen, Color::Black);
    let first = queen.valid_moves((3, 5), &board);
    let second = queen.valid_moves((3, 5), &board);
    assert_eq!(first, second);
    assert_eq!(first, queen.valid_moves((3, 5), &board.clone()));
}

#[test]
fn every_offered_square_fits_its_list() {
    let mut board = Board::new();
    board.tiles[3][3] = a_union(PieceKind::Knight, PieceKind::Rook);
    board.tiles[5][4] = lone(PieceKind::Pawn, Color::White);
    board.tiles[2][4] = lone(PieceKind::Pawn, Color::Black);
    let kinds = [
        PieceKind::Pawn,
        PieceKind::Knight,
        PieceKind::Bishop,
        PieceKind::Rook,
        PieceKind::Queen,
        PieceKind::King,
    ];
    for kind in kinds {
        for color in [Color::White, Color::Black] {
            let piece = Piece::new(kind, color);
            for col in 0..8 {
                for row in 0..8 {
                    let moves = piece.valid_moves((col, row), &board);
                    for sq in &moves.empty {
                        match board.tiles[sq.0][sq.1] {
                            Tile::Empty => {}
                            Tile::Single(other) => {
                                assert_eq!(kind, PieceKind::King);
                                assert_ne!(other.color, color);
                            }
                            Tile::Union { .. } => panic!("a union among the empty squares"),
                        }
                    }
                    for sq in &moves.enemy {
                        match board.tiles[sq.0][sq.1] {
                            Tile::Single(other) => assert_ne!(other.color, color),
                            _ => panic!("no lone piece on an enemy square"),
                        }
                    }
                    for sq in &moves.union {
                        assert!(matches!(board.tiles[sq.0][sq.1], Tile::Union { .. }));
                    }
                }
            }
        }
    }
}
