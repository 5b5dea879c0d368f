use pacosakors::board::{Board, Tile};
use pacosakors::piece::{Color, Piece, PieceKind};

#[test]
fn render_opening_position() {
    let text = Board::new().render();
    let expected = "8  R   N   B   Q   K   B   N   R  \n\
                    7  P   P   P   P   P   P   P   P  \n\
                    6  _   _   _   _   _   _   _   _  \n\
                    5  _   _   _   _   _   _   _   _  \n\
                    4  _   _   _   _   _   _   _   _  \n\
                    3  _   _   _   _   _   _   _   _  \n\
                    2  P   P   P   P   P   P   P   P  \n\
                    1  R   N   B   Q   K   B   N   R  \n   \
                    A   B   C   D   E   F   G   H\n";
    assert_eq!(text, expected);
}

#[test]
fn render_shows_a_union_by_both_letters() {
    let mut board = Board { tiles: [[Tile::Empty; 8]; 8] };
    board.tiles[1][2] = Tile::Union {
        white: Piece::new(PieceKind::Knight, Color::White),
        black: Piece::new(PieceKind::Queen, Color::Black),
    };
    board.tiles[7][7] = Tile::Single(Piece::new(PieceKind::King, Color::Black));
    let text = board.render();
    let lines: Vec<&str> = text.lines().collect();
    assert_eq!(lines.len(), 9);
    assert_eq!(lines[0], "8  _   _   _   _   _   _   _   K  ");
    assert_eq!(lines[5], "3  _  NxQ  _   _   _   _   _   _  ");
    assert_eq!(lines[7], "1  _   _   _   _   _   _   _   _  ");
    assert_eq!(lines[8], "   A   B   C   D   E   F   G   H");
    for line in &lines[0..8] {
        assert_eq!(line.len(), 34);
    }
}
