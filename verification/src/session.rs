//! One exchange of a game: a request comes in, the board may change, a
//! reply goes out together with the side that moves next.

use vstd::prelude::*;
use crate::board::{on_board, piece_at, Board};
use crate::moves::{reach, MoveSet};
use crate::notation::Request;
use crate::piece::Color;
use crate::turn::turn;

verus! {

/// What the game answers to a request.
#[derive(Debug, PartialEq, Eq)]
pub enum Reply {
    /// The request was no request at all.
    InvalidInput,
    /// The square asked about is empty.
    NoPiece,
    /// What the occupant of the square asked about can reach.
    Options(MoveSet),
    /// The turn was played; the other side is to move.
    Moved,
    /// The turn was refused; the same side is still to move.
    InvalidMove,
}

/// The other side.
pub open spec fn other(color: Color) -> Color {
    match color {
        Color::White => Color::Black,
        Color::Black => Color::White,
    }
}

/// Whether every square that `request` names lies on the board, and a
/// request to play names at least one destination.
pub open spec fn answerable(request: Request) -> bool {
    match request {
        Request::Invalid => true,
        Request::Show(pos) => on_board(pos),
        Request::Play { start, destinations } => on_board(start) && destinations@.len() >= 1
            && forall|k: int|
            0 <= k < destinations@.len() ==> on_board(#[trigger] destinations@[k]),
    }
}

/// The other side.
pub fn opponent(color: Color) -> (next: Color)
    ensures
        next == other(color),
{
    match color {
        Color::White => Color::Black,
        Color::Black => Color::White,
    }
}

/// Answers one request while `playing` is to move, and says who moves next.
/// Only a turn that is accepted changes the board and passes the move on.
pub fn respond(board: &mut Board, playing: Color, request: Request) -> (out: (Reply, Color))
    requires
        answerable(request),
    ensures
        request is Invalid ==> out.0 is InvalidInput,
        request matches Request::Show(pos) ==> match piece_at(old(board)@, pos) {
            None => out.0 is NoPiece,
            Some(piece) => out.0 matches Reply::Options(moves) && moves@ == reach(
                piece,
                pos,
                old(board)@,
            ),
        },
        request matches Request::Play { start, destinations } ==> match turn(
            old(board)@,
            start,
            destinations@,
            playing,
        ) {
            None => out.0 is InvalidMove,
            Some(after) => out.0 is Moved && final(board)@ == after,
        },
        out.1 == if out.0 is Moved {
            other(playing)
        } else {
            playing
        },
        !(out.0 is Moved) ==> *final(board) == *old(board),
{
    match request {
        Request::Invalid => (Reply::InvalidInput, playing),
        Request::Show(pos) => {
            match board.get_piece(pos) {
                Some(piece) => (Reply::Options(piece.valid_moves(pos, &*board)), playing),
                None => (Reply::NoPiece, playing),
            }
        },
        Request::Play { start, destinations } => {
            if board.try_update(start, destinations, playing) {
                (Reply::Moved, opponent(playing))
            } else {
                (Reply::InvalidMove, playing)
            }
        },
    }
}

} // verus!
