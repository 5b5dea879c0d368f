//! Pieces: their kind, their colour, and whether they have moved.

use vstd::prelude::*;

verus! {

/// The six kinds of chess piece.
#[derive(Copy, Clone, Debug, PartialEq, Eq, Structural)]
pub enum PieceKind {
    Pawn,
    Knight,
    Bishop,
    Rook,
    Queen,
    King,
}

/// The two sides.
#[derive(Copy, Clone, Debug, PartialEq, Eq, Structural)]
pub enum Color {
    White,
    Black,
}

/// A piece is a plain value: what it is, whose it is, and whether it has moved.
#[derive(Copy, Clone, Debug, PartialEq, Eq, Structural)]
pub struct Piece {
    pub kind: PieceKind,
    pub color: Color,
    pub has_moved: bool,
}

impl Piece {
    /// A piece that has not moved yet.
    pub fn new(kind: PieceKind, color: Color) -> (piece: Piece)
        ensures
            piece == (Piece { kind, color, has_moved: false }),
    {
        Piece { kind, color, has_moved: false }
    }
}

} // verus!
