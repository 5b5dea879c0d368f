//! The board: 64 tiles, each empty, a single piece, or a union of a white
//! and a black piece, with its model as a map from squares to tiles.

use vstd::prelude::*;
use crate::piece::{Color, Piece, PieceKind};

verus! {

/// What stands on one square.
#[derive(Copy, Clone, Debug, PartialEq, Eq, Structural)]
pub enum Tile {
    /// Nothing.
    Empty,
    /// One piece of either colour.
    Single(Piece),
    /// One white and one black piece sharing the square.
    Union { white: Piece, black: Piece },
}

/// The 8 by 8 board, indexed `tiles[column][row]`.
#[derive(Copy, Clone, Debug, PartialEq, Eq)]
pub struct Board {
    pub tiles: [[Tile; 8]; 8],
}

/// The mathematical model of a board: the tile on each square of the grid.
pub type Grid = Map<(usize, usize), Tile>;

/// A square of the board: column and row both below 8.
pub open spec fn on_board(pos: (usize, usize)) -> bool {
    pos.0 < 8 && pos.1 < 8
}

/// A tile is sound when it is no union, or a union that holds a white piece
/// in its white slot and a black piece in its black slot.
pub open spec fn sound_tile(tile: Tile) -> bool {
    tile matches Tile::Union { white, black } ==> white.color == Color::White && black.color
        == Color::Black
}

/// A grid is well formed when it covers exactly the 64 squares of the board
/// and every tile on it is sound: no square holds two pieces of one colour.
pub open spec fn well_formed(g: Grid) -> bool {
    &&& forall|p: (usize, usize)| g.dom().contains(p) <==> on_board(p)
    &&& forall|p: (usize, usize)| on_board(p) ==> sound_tile(#[trigger] g[p])
}

/// The kind of piece that opens on the back rank in column `c`.
pub open spec fn back_rank(c: int) -> PieceKind {
    if c == 0 || c == 7 {
        PieceKind::Rook
    } else if c == 1 || c == 6 {
        PieceKind::Knight
    } else if c == 2 || c == 5 {
        PieceKind::Bishop
    } else if c == 3 {
        PieceKind::Queen
    } else {
        PieceKind::King
    }
}

/// The tile on square `pos` in the standard opening arrangement.
pub open spec fn opening_tile(pos: (usize, usize)) -> Tile {
    if pos.1 == 0 {
        Tile::Single(Piece { kind: back_rank(pos.0 as int), color: Color::White, has_moved: false })
    } else if pos.1 == 1 {
        Tile::Single(Piece { kind: PieceKind::Pawn, color: Color::White, has_moved: false })
    } else if pos.1 == 6 {
        Tile::Single(Piece { kind: PieceKind::Pawn, color: Color::Black, has_moved: false })
    } else if pos.1 == 7 {
        Tile::Single(Piece { kind: back_rank(pos.0 as int), color: Color::Black, has_moved: false })
    } else {
        Tile::Empty
    }
}

/// The standard opening arrangement.
pub open spec fn opening() -> Grid {
    Map::new(|p: (usize, usize)| on_board(p), |p: (usize, usize)| opening_tile(p))
}

/// The occupant that a query of square `pos` reports: none on an empty
/// square, the piece on a single, and on a union the piece in the white slot
/// whenever that piece is white.
pub open spec fn piece_at(g: Grid, pos: (usize, usize)) -> Option<Piece> {
    match g[pos] {
        Tile::Empty => None,
        Tile::Single(piece) => Some(piece),
        Tile::Union { white, black } => if white.color == Color::White {
            Some(white)
        } else {
            Some(black)
        },
    }
}

impl View for Board {
    type V = Grid;

    open spec fn view(&self) -> Grid {
        Map::new(
            |p: (usize, usize)| on_board(p),
            |p: (usize, usize)| self.tiles[p.0 as int][p.1 as int],
        )
    }
}

/// Two boards with the same tiles on all 64 squares are the same board.
pub proof fn lemma_board_ext(a: Board, b: Board)
    requires
        a@ == b@,
    ensures
        a == b,
{
    assert forall|c: int| 0 <= c < 8 implies a.tiles[c] == b.tiles[c] by {
        assert forall|r: int| 0 <= r < 8 implies a.tiles[c][r] == b.tiles[c][r] by {
            let p = (c as usize, r as usize);
            assert(a@.dom().contains(p) && b@.dom().contains(p));
            assert(a@[p] == a.tiles[c][r]);
            assert(b@[p] == b.tiles[c][r]);
        }
        assert(a.tiles[c] =~= b.tiles[c]);
    }
    assert(a.tiles =~= b.tiles);
}

impl Board {
    /// The board in the standard opening arrangement: the back ranks on rows
    /// 0 and 7, the pawns on rows 1 and 6, white below, and no union anywhere.
    pub fn new() -> (board: Board)
        ensures
            board@ == opening(),
            well_formed(board@),
            forall|p: (usize, usize)| on_board(p) ==> !(#[trigger] board@[p] is Union),
    {
        let kinds: [PieceKind; 8] = [
            PieceKind::Rook,
            PieceKind::Knight,
            PieceKind::Bishop,
            PieceKind::Queen,
            PieceKind::King,
            PieceKind::Bishop,
            PieceKind::Knight,
            PieceKind::Rook,
        ];
        let mut tiles: [[Tile; 8]; 8] = [[Tile::Empty; 8]; 8];
        let mut i: usize = 0;
        while i < 8
            invariant
                i <= 8,
                forall|c: int| 0 <= c < 8 ==> #[trigger] kinds[c] == back_rank(c),
                forall|c: int, r: int|
                    0 <= c < i && 0 <= r < 8 ==> #[trigger] tiles[c][r] == opening_tile(
                        (c as usize, r as usize),
                    ),
                forall|c: int, r: int|
                    i <= c < 8 && 0 <= r < 8 ==> #[trigger] tiles[c][r] == Tile::Empty,
            decreases 8 - i,
        {
            let kind = kinds[i];
            tiles[i][0] = Tile::Single(Piece::new(kind, Color::White));
            tiles[i][1] = Tile::Single(Piece::new(PieceKind::Pawn, Color::White));
            tiles[i][6] = Tile::Single(Piece::new(PieceKind::Pawn, Color::Black));
            tiles[i][7] = Tile::Single(Piece::new(kind, Color::Black));
            i += 1;
        }
        let board = Board { tiles };
        assert(board@ =~= opening());
        board
    }

    /// The tile on square `pos`.
    pub fn tile(&self, pos: (usize, usize)) -> (tile: Tile)
        requires
            on_board(pos),
        ensures
            tile == self@[pos],
    {
        self.tiles[pos.0][pos.1]
    }

    /// Puts `tile` on square `pos` and leaves every other square as it was.
    pub(crate) fn set_tile(&mut self, pos: (usize, usize), tile: Tile)
        requires
            on_board(pos),
        ensures
            final(self)@ == old(self)@.insert(pos, tile),
    {
        self.tiles[pos.0][pos.1] = tile;
        assert(self@ =~= old(self)@.insert(pos, tile));
    }

    /// The occupant of square `pos` as a caller sees it.
    pub fn get_piece(&self, pos: (usize, usize)) -> (occupant: Option<Piece>)
        requires
            on_board(pos),
        ensures
            occupant == piece_at(self@, pos),
    {
        match self.tiles[pos.0][pos.1] {
            Tile::Empty => None,
            Tile::Single(piece) => Some(piece),
            Tile::Union { white, black } => {
                if white.color == Color::White {
                    Some(white)
                } else {
                    Some(black)
                }
            },
        }
    }
}

} // verus!
