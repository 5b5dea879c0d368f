//! Turns: a single step or a chain through unions, played all or nothing.

use vstd::prelude::*;
use crate::board::{on_board, well_formed, Board, Grid, Tile};
use crate::moves::{holds, legal_step, reach};
use crate::piece::{Color, Piece};
use crate::turn_lemmas::{lemma_turn_keeps_well_formed, lemma_union_destination_refused};

verus! {

/// The union of `mover` and `other`: a white mover takes the white slot and
/// leaves the black one to `other`, a black mover takes the black slot and
/// leaves the white one.
pub open spec fn joined(mover: Piece, other: Piece) -> Tile {
    if mover.color == Color::White {
        Tile::Union { white: mover, black: other }
    } else {
        Tile::Union { white: other, black: mover }
    }
}

/// The piece in the slot of `player`'s colour.
pub open spec fn slot(white: Piece, black: Piece, player: Color) -> Piece {
    if player == Color::White {
        white
    } else {
        black
    }
}

/// The union of `white` and `black` with `piece` put into the slot of
/// `player`'s colour; the other slot is untouched.
pub open spec fn with_slot(white: Piece, black: Piece, player: Color, piece: Piece) -> Tile {
    if player == Color::White {
        Tile::Union { white: piece, black }
    } else {
        Tile::Union { white, black: piece }
    }
}

/// The grid after `cargo` is carried from `start` to `dest` in one step. A
/// single that meets a single forms a union with it; anything else replaces
/// what stood on `dest`. The origin is left empty.
pub open spec fn relocate(g: Grid, start: (usize, usize), dest: (usize, usize), cargo: Tile) -> Grid {
    match cargo {
        Tile::Single(piece) => match g[dest] {
            Tile::Single(occupant) => g.insert(start, Tile::Empty).insert(
                dest,
                joined(piece, occupant),
            ),
            _ => g.insert(start, Tile::Empty).insert(dest, Tile::Single(piece)),
        },
        Tile::Union { .. } => g.insert(start, Tile::Empty).insert(dest, cargo),
        Tile::Empty => g,
    }
}

/// The grid after the moving piece has left `current`: a single leaves the
/// square empty, in a union only the slot of `player`'s colour is rewritten
/// to hold `moving`. Nothing can leave an empty square.
pub open spec fn lifted(g: Grid, current: (usize, usize), moving: Piece, player: Color) -> Option<
    Grid,
> {
    match g[current] {
        Tile::Single(_) => Some(g.insert(current, Tile::Empty)),
        Tile::Union { white, black } => Some(
            g.insert(current, with_slot(white, black, player, moving)),
        ),
        Tile::Empty => None,
    }
}

/// The tile that results when `moving` comes to rest on `target`.
pub open spec fn settled(target: Tile, moving: Piece) -> Tile {
    match target {
        Tile::Single(opponent) => joined(moving, opponent),
        _ => Tile::Single(moving),
    }
}

/// The outcome of a chain: `moving` leaves `current` and heads for the first
/// of `dests`. Where that square holds a union the continuation is forced:
/// `moving` takes the slot of `player`'s colour, and the piece that held it
/// goes on to the rest of `dests`. Any other square must be a legal landing
/// square of `moving`, and the chain ends there. The result is the final
/// grid, or `None` where the chain fails.
pub open spec fn chain(
    g: Grid,
    current: (usize, usize),
    moving: Piece,
    dests: Seq<(usize, usize)>,
    player: Color,
) -> Option<Grid>
    decreases dests.len(),
{
    if dests.len() == 0 {
        None
    } else {
        match lifted(g, current, moving, player) {
            None => None,
            Some(g1) => {
                let next = dests[0];
                match g1[next] {
                    Tile::Union { white, black } => chain(
                        g1.insert(next, with_slot(white, black, player, moving)),
                        next,
                        slot(white, black, player),
                        dests.skip(1),
                        player,
                    ),
                    target => if legal_step(moving, current, g1, next) {
                        Some(g1.insert(next, settled(target, moving)))
                    } else {
                        None
                    },
                }
            },
        }
    }
}

/// The outcome of one turn: `player` moves what stands on `start` along
/// `dests`. The result is the grid after the turn, or `None` where the turn
/// is refused.
///
/// - Nothing moves from an empty square.
/// - A single with one destination must land legally; it is carried there.
/// - A single with several destinations runs a chain, unless the last
///   destination holds a union.
/// - A union moves as a whole to the last destination, which must be among
///   the `empty` squares of its piece of `player`'s colour, and hold no union.
pub open spec fn turn(g: Grid, start: (usize, usize), dests: Seq<(usize, usize)>, player: Color) -> Option<
    Grid,
> {
    let end = dests.last();
    match g[start] {
        Tile::Empty => None,
        Tile::Single(piece) => if dests.len() == 1 {
            if legal_step(piece, start, g, end) {
                Some(relocate(g, start, end, Tile::Single(piece)))
            } else {
                None
            }
        } else if g[end] is Union {
            None
        } else {
            chain(g, start, piece, dests, player)
        },
        Tile::Union { white, black } => {
            let piece = if white.color == player {
                white
            } else {
                black
            };
            if reach(piece, start, g).empty.contains(end) && !(g[end] is Union) {
                Some(relocate(g, start, end, Tile::Union { white, black }))
            } else {
                None
            }
        },
    }
}

impl Board {
    /// Carries `piece` from `start` to `dest` and leaves `start` empty.
    fn update(&mut self, start: (usize, usize), dest: (usize, usize), piece: Tile)
        requires
            on_board(start),
            on_board(dest),
        ensures
            final(self)@ == relocate(old(self)@, start, dest, piece),
    {
        match piece {
            Tile::Single(piece) => {
                if let Tile::Single(occupant) = self.tile(dest) {
                    self.set_tile(start, Tile::Empty);
                    let combined = if piece.color == Color::White {
                        Tile::Union { white: piece, black: occupant }
                    } else {
                        Tile::Union { white: occupant, black: piece }
                    };
                    self.set_tile(dest, combined);
                } else {
                    self.set_tile(start, Tile::Empty);
                    self.set_tile(dest, Tile::Single(piece));
                }
            },
            Tile::Union { white, black } => {
                self.set_tile(start, Tile::Empty);
                self.set_tile(dest, Tile::Union { white, black });
            },
            Tile::Empty => {},
        }
    }

    /// Runs a chain on this board: `moving_piece` leaves `current` and passes
    /// through the squares of `moves`. On success the board holds the final
    /// position; on failure it is left somewhere along the way.
    fn validate_sequence(
        &mut self,
        current: (usize, usize),
        moving_piece: Piece,
        moves: &Vec<(usize, usize)>,
        playing: Color,
    ) -> (ok: bool)
        requires
            on_board(current),
            forall|k: int| 0 <= k < moves@.len() ==> on_board(#[trigger] moves@[k]),
        ensures
            ok == chain(old(self)@, current, moving_piece, moves@, playing).is_some(),
            ok ==> final(self)@ == chain(
                old(self)@,
                current,
                moving_piece,
                moves@,
                playing,
            ).unwrap(),
    {
        let ghost outcome = chain(old(self)@, current, moving_piece, moves@, playing);
        let mut here: (usize, usize) = current;
        let mut carried: Piece = moving_piece;
        let mut i: usize = 0;
        assert(moves@.skip(0) =~= moves@);
        while i < moves.len()
            invariant
                i <= moves@.len(),
                on_board(here),
                forall|k: int| 0 <= k < moves@.len() ==> on_board(#[trigger] moves@[k]),
                outcome == chain(old(self)@, current, moving_piece, moves@, playing),
                outcome == chain(self@, here, carried, moves@.skip(i as int), playing),
            decreases moves@.len() - i,
        {
            let next: (usize, usize) = moves[i];
            let ghost g0 = self@;
            let ghost rest = moves@.skip(i as int);
            assert(rest.len() > 0 && rest[0] == next);
            assert(rest.skip(1) =~= moves@.skip(i + 1));
            match self.tile(here) {
                Tile::Single(_) => {
                    self.set_tile(here, Tile::Empty);
                },
                Tile::Union { white, black } => {
                    match playing {
                        Color::White => {
                            self.set_tile(here, Tile::Union { white: carried, black });
                        },
                        Color::Black => {
                            self.set_tile(here, Tile::Union { white, black: carried });
                        },
                    }
                },
                Tile::Empty => {
                    return false;
                },
            }
            let ghost g1 = self@;
            assert(lifted(g0, here, carried, playing) == Some(g1));
            assert(outcome == match g1[next] {
                Tile::Union { white, black } => chain(
                    g1.insert(next, with_slot(white, black, playing, carried)),
                    next,
                    slot(white, black, playing),
                    rest.skip(1),
                    playing,
                ),
                target => if legal_step(carried, here, g1, next) {
                    Some(g1.insert(next, settled(target, carried)))
                } else {
                    None
                },
            });
            match self.tile(next) {
                Tile::Union { white, black } => {
                    match playing {
                        Color::White => {
                            self.set_tile(next, Tile::Union { white: carried, black });
                            carried = white;
                        },
                        Color::Black => {
                            self.set_tile(next, Tile::Union { white, black: carried });
                            carried = black;
                        },
                    }
                    here = next;
                    i += 1;
                },
                Tile::Single(opponent) => {
                    if carried.valid_moves(here, &*self).lands_on(next) {
                        let combined = if carried.color == Color::White {
                            Tile::Union { white: carried, black: opponent }
                        } else {
                            Tile::Union { white: opponent, black: carried }
                        };
                        self.set_tile(next, combined);
                        return true;
                    } else {
                        return false;
                    }
                },
                Tile::Empty => {
                    if carried.valid_moves(here, &*self).lands_on(next) {
                        self.set_tile(next, Tile::Single(carried));
                        return true;
                    } else {
                        return false;
                    }
                },
            }
        }
        false
    }

    /// Plays one turn: `playing` moves what stands on `start` along `moves`.
    /// The turn is all or nothing. Where it is accepted the board holds the
    /// position after it and the result is `true`; where it is refused the
    /// board is unchanged and the result is `false`. A turn whose last
    /// destination holds a union is always refused, and a well-formed board
    /// stays well formed.
    pub fn try_update(
        &mut self,
        start: (usize, usize),
        moves: Vec<(usize, usize)>,
        playing: Color,
    ) -> (ok: bool)
        requires
            on_board(start),
            moves@.len() >= 1,
            forall|k: int| 0 <= k < moves@.len() ==> on_board(#[trigger] moves@[k]),
        ensures
            ok == turn(old(self)@, start, moves@, playing).is_some(),
            ok ==> final(self)@ == turn(old(self)@, start, moves@, playing).unwrap(),
            !ok ==> *final(self) == *old(self),
            old(self)@[moves@.last()] is Union ==> !ok,
            well_formed(old(self)@) ==> well_formed(final(self)@),
    {
        proof {
            if self@[moves@.last()] is Union {
                lemma_union_destination_refused(self@, start, moves@, playing);
            }
            if well_formed(self@) && turn(self@, start, moves@, playing) is Some {
                lemma_turn_keeps_well_formed(self@, start, moves@, playing);
            }
        }
        let end: (usize, usize) = moves[moves.len() - 1];
        match self.tile(start) {
            Tile::Single(piece) => {
                if moves.len() == 1 {
                    if piece.valid_moves(start, &*self).lands_on(end) {
                        self.update(start, end, Tile::Single(piece));
                        true
                    } else {
                        false
                    }
                } else {
                    match self.tile(end) {
                        Tile::Union { .. } => false,
                        _ => {
                            let mut theory_board = *self;
                            if theory_board.validate_sequence(start, piece, &moves, playing) {
                                *self = theory_board;
                                true
                            } else {
                                false
                            }
                        },
                    }
                }
            },
            Tile::Union { white, black } => {
                let piece = if white.color == playing {
                    white
                } else {
                    black
                };
                if holds(&piece.valid_moves(start, &*self).empty, end) {
                    match self.tile(end) {
                        Tile::Union { .. } => false,
                        _ => {
                            self.update(start, end, Tile::Union { white, black });
                            true
                        },
                    }
                } else {
                    false
                }
            },
            Tile::Empty => false,
        }
    }
}

} // verus!
