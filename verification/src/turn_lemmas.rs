//! What holds of every turn: when it is refused, what it leaves behind,
//! and what a chain comes to.

use vstd::prelude::*;
use crate::board::{on_board, piece_at, sound_tile, well_formed, Grid, Tile};
use crate::moves::{legal_step, reach};
use crate::piece::{Color, Piece};
use crate::reach_lemmas::{foe_for, free_for, lemma_reach_sorted};
use crate::turn::{chain, joined, lifted, relocate, settled, slot, turn, with_slot};

verus! {

/// A square that holds a union is never a legal landing square.
pub proof fn lemma_no_landing_on_union(piece: Piece, from: (usize, usize), g: Grid, to: (usize, usize))
    requires
        on_board(from),
        g[to] is Union,
    ensures
        !legal_step(piece, from, g, to),
        !reach(piece, from, g).empty.contains(to),
{
    lemma_reach_sorted(piece, from, g);
    let m = reach(piece, from, g);
    if m.empty.contains(to) {
        assert(free_for(g, piece, to));
    }
    if m.enemy.contains(to) {
        assert(foe_for(g, piece, to));
    }
}

/// A lone piece on a legal landing square is of the other colour than the
/// piece that lands.
pub proof fn lemma_landing_meets_enemy(
    piece: Piece,
    from: (usize, usize),
    g: Grid,
    to: (usize, usize),
    occupant: Piece,
)
    requires
        on_board(from),
        legal_step(piece, from, g, to),
        g[to] == Tile::Single(occupant),
    ensures
        occupant.color != piece.color,
        sound_tile(joined(piece, occupant)),
{
    lemma_reach_sorted(piece, from, g);
    let m = reach(piece, from, g);
    if m.empty.contains(to) {
        assert(free_for(g, piece, to));
    }
    if m.enemy.contains(to) {
        assert(foe_for(g, piece, to));
    }
}

/// A turn whose last destination holds a union is refused, whatever stands
/// on the starting square and however many destinations are given.
pub proof fn lemma_union_destination_refused(
    g: Grid,
    start: (usize, usize),
    dests: Seq<(usize, usize)>,
    player: Color,
)
    requires
        on_board(start),
        dests.len() >= 1,
        g[dests.last()] is Union,
    ensures
        turn(g, start, dests, player) is None,
{
    match g[start] {
        Tile::Single(piece) => {
            lemma_no_landing_on_union(piece, start, g, dests.last());
        },
        _ => {},
    }
}

/// A lone piece that lands on a lone piece of the other colour forms a
/// union with it: each of the two stands in the slot of its own colour, the
/// origin is left empty and no other square changes. A query of the new
/// union reports its white piece.
pub proof fn lemma_capture_forms_union(
    g: Grid,
    start: (usize, usize),
    dest: (usize, usize),
    player: Color,
    mover: Piece,
    target: Piece,
)
    requires
        on_board(start),
        on_board(dest),
        g[start] == Tile::Single(mover),
        g[dest] == Tile::Single(target),
        mover.color != target.color,
        turn(g, start, seq![dest], player) is Some,
    ensures
        ({
            let after = turn(g, start, seq![dest], player).unwrap();
            &&& after[start] == Tile::Empty
            &&& mover.color == Color::White ==> after[dest] == (Tile::Union {
                white: mover,
                black: target,
            }) && piece_at(after, dest) == Some(mover)
            &&& mover.color == Color::Black ==> after[dest] == (Tile::Union {
                white: target,
                black: mover,
            }) && piece_at(after, dest) == Some(target)
            &&& forall|sq: (usize, usize)| sq != start && sq != dest ==> after[sq] == g[sq]
            &&& after.dom() == g.dom().insert(start).insert(dest)
        }),
{
    let dests = seq![dest];
    assert(dests.len() == 1 && dests.last() == dest);
    let after = turn(g, start, dests, player).unwrap();
    assert(after == relocate(g, start, dest, Tile::Single(mover)));
    assert(start != dest);
    assert(after.dom() =~= g.dom().insert(start).insert(dest));
}

/// A chain stops at the first destination that holds no union: the
/// destinations after it play no part in the outcome.
pub proof fn lemma_chain_ignores_rest(
    g: Grid,
    current: (usize, usize),
    moving: Piece,
    dests: Seq<(usize, usize)>,
    player: Color,
)
    requires
        dests.len() >= 1,
        lifted(g, current, moving, player) matches Some(g1) && !(g1[dests[0]] is Union),
    ensures
        chain(g, current, moving, dests, player) == chain(
            g,
            current,
            moving,
            seq![dests[0]],
            player,
        ),
{
    let first = seq![dests[0]];
    assert(first.len() == 1 && first[0] == dests[0]);
}

/// The piece that comes to rest when a chain lands on its `j`-th
/// destination: the piece that set out if that is the first destination,
/// otherwise the piece in the slot of `player`'s colour of the union on the
/// destination before.
pub open spec fn mover_at(
    base: Grid,
    moving: Piece,
    dests: Seq<(usize, usize)>,
    player: Color,
    j: int,
) -> Piece {
    if j == 0 {
        moving
    } else {
        match base[dests[j - 1]] {
            Tile::Union { white, black } => slot(white, black, player),
            _ => moving,
        }
    }
}

/// The square from which the last step of a chain is made when it lands on
/// its `j`-th destination.
pub open spec fn origin_at(current: (usize, usize), dests: Seq<(usize, usize)>, j: int) -> (
    usize,
    usize,
) {
    if j == 0 {
        current
    } else {
        dests[j - 1]
    }
}

/// The outcome of a chain in closed form. Let `base` be the grid once the
/// moving piece has left its square, and let the `j`-th destination be the
/// first that holds no union. Then every union before it is passed through
/// and left as it was; the chain succeeds exactly if the piece that arrives
/// may legally step from the square before onto that destination; and the
/// final grid is `base` with that piece settled there.
pub proof fn lemma_chain_outcome(
    g: Grid,
    current: (usize, usize),
    moving: Piece,
    dests: Seq<(usize, usize)>,
    player: Color,
    j: int,
)
    requires
        forall|p: (usize, usize)| on_board(p) ==> g.dom().contains(p),
        on_board(current),
        forall|k: int| 0 <= k < dests.len() ==> on_board(#[trigger] dests[k]),
        lifted(g, current, moving, player) is Some,
        0 <= j < dests.len(),
        forall|i: int|
            0 <= i < j ==> lifted(g, current, moving, player).unwrap()[#[trigger] dests[i]] is Union,
        !(lifted(g, current, moving, player).unwrap()[dests[j]] is Union),
    ensures
        ({
            let base = lifted(g, current, moving, player).unwrap();
            let mover = mover_at(base, moving, dests, player, j);
            let from = origin_at(current, dests, j);
            chain(g, current, moving, dests, player) == if legal_step(mover, from, base, dests[j]) {
                Some(base.insert(dests[j], settled(base[dests[j]], mover)))
            } else {
                None
            }
        }),
    decreases j,
{
    let base = lifted(g, current, moving, player).unwrap();
    let next = dests[0];
    if j > 0 {
        assert(base[dests[0]] is Union);
        match base[next] {
            Tile::Union { white, black } => {
                let g2 = base.insert(next, with_slot(white, black, player, moving));
                let carried = slot(white, black, player);
                let rest = dests.skip(1);
                assert(chain(g, current, moving, dests, player) == chain(
                    g2,
                    next,
                    carried,
                    rest,
                    player,
                ));
                assert(on_board(next));
                assert(base.dom().contains(next));
                let base2 = lifted(g2, next, carried, player).unwrap();
                assert(base2 =~= base);
                assert forall|k: int| 0 <= k < rest.len() implies on_board(#[trigger] rest[k]) by {
                    assert(rest[k] == dests[k + 1]);
                }
                assert forall|i: int| 0 <= i < j - 1 implies base2[#[trigger] rest[i]] is Union by {
                    assert(rest[i] == dests[i + 1]);
                }
                assert(rest[j - 1] == dests[j]);
                lemma_chain_outcome(g2, next, carried, rest, player, j - 1);
                assert(mover_at(base2, carried, rest, player, j - 1) == mover_at(
                    base,
                    moving,
                    dests,
                    player,
                    j,
                )) by {
                    if j - 1 > 0 {
                        assert(rest[j - 2] == dests[j - 1]);
                    }
                }
                assert(origin_at(next, rest, j - 1) == origin_at(current, dests, j)) by {
                    if j - 1 > 0 {
                        assert(rest[j - 2] == dests[j - 1]);
                    }
                }
            },
            _ => {},
        }
    }
}

/// A chain all of whose destinations hold unions fails: it never comes to
/// rest.
pub proof fn lemma_chain_without_landing_fails(
    g: Grid,
    current: (usize, usize),
    moving: Piece,
    dests: Seq<(usize, usize)>,
    player: Color,
)
    requires
        forall|p: (usize, usize)| on_board(p) ==> g.dom().contains(p),
        on_board(current),
        forall|k: int| 0 <= k < dests.len() ==> on_board(#[trigger] dests[k]),
        lifted(g, current, moving, player) matches Some(base) ==> forall|i: int|
            0 <= i < dests.len() ==> base[#[trigger] dests[i]] is Union,
    ensures
        chain(g, current, moving, dests, player) is None,
    decreases dests.len(),
{
    if dests.len() > 0 && lifted(g, current, moving, player) is Some {
        let base = lifted(g, current, moving, player).unwrap();
        let next = dests[0];
        assert(base[dests[0]] is Union);
        match base[next] {
            Tile::Union { white, black } => {
                let g2 = base.insert(next, with_slot(white, black, player, moving));
                let carried = slot(white, black, player);
                let rest = dests.skip(1);
                assert(on_board(next));
                assert(base.dom().contains(next));
                let base2 = lifted(g2, next, carried, player).unwrap();
                assert(base2 =~= base);
                assert forall|k: int| 0 <= k < rest.len() implies on_board(#[trigger] rest[k]) by {
                    assert(rest[k] == dests[k + 1]);
                }
                assert forall|i: int| 0 <= i < rest.len() implies base2[#[trigger] rest[i]] is Union by {
                    assert(rest[i] == dests[i + 1]);
                }
                lemma_chain_without_landing_fails(g2, next, carried, rest, player);
            },
            _ => {},
        }
    }
}

/// The state in the middle of a chain: every square but `current` is sound,
/// and where `current` holds a union, the slot that `player` does not own is
/// sound and the piece to be written back is of `player`'s colour.
pub open spec fn poised(g: Grid, current: (usize, usize), moving: Piece, player: Color) -> bool {
    &&& forall|p: (usize, usize)| g.dom().contains(p) <==> on_board(p)
    &&& forall|p: (usize, usize)| on_board(p) && p != current ==> sound_tile(#[trigger] g[p])
    &&& g[current] matches Tile::Union { white, black } ==> moving.color == player && if player
        == Color::White {
        black.color == Color::Black
    } else {
        white.color == Color::White
    }
}

proof fn lemma_chain_keeps_well_formed(
    g: Grid,
    current: (usize, usize),
    moving: Piece,
    dests: Seq<(usize, usize)>,
    player: Color,
)
    requires
        poised(g, current, moving, player),
        on_board(current),
        forall|k: int| 0 <= k < dests.len() ==> on_board(#[trigger] dests[k]),
        chain(g, current, moving, dests, player) is Some,
    ensures
        well_formed(chain(g, current, moving, dests, player).unwrap()),
    decreases dests.len(),
{
    let g1 = lifted(g, current, moving, player).unwrap();
    let next = dests[0];
    assert(on_board(next));
    assert(well_formed(g1)) by {
        assert forall|p: (usize, usize)| on_board(p) implies sound_tile(#[trigger] g1[p]) by {
            if p != current {
                assert(g1[p] == g[p]);
            }
        }
    }
    match g1[next] {
        Tile::Union { white, black } => {
            let g2 = g1.insert(next, with_slot(white, black, player, moving));
            let carried = slot(white, black, player);
            assert(sound_tile(g1[next]));
            assert(poised(g2, next, carried, player)) by {
                assert forall|p: (usize, usize)| on_board(p) && p != next implies sound_tile(
                    #[trigger] g2[p],
                ) by {
                    assert(g2[p] == g1[p]);
                }
            }
            assert forall|k: int| 0 <= k < dests.skip(1).len() implies on_board(
                #[trigger] dests.skip(1)[k],
            ) by {
                assert(dests.skip(1)[k] == dests[k + 1]);
            }
            lemma_chain_keeps_well_formed(g2, next, carried, dests.skip(1), player);
        },
        target => {
            let after = g1.insert(next, settled(target, moving));
            assert(sound_tile(settled(target, moving))) by {
                if let Tile::Single(opponent) = target {
                    lemma_landing_meets_enemy(moving, current, g1, next, opponent);
                }
            }
            assert forall|p: (usize, usize)| on_board(p) implies sound_tile(
                #[trigger] after[p],
            ) by {
                if p != next {
                    assert(after[p] == g1[p]);
                }
            }
        },
    }
}

/// An accepted turn on a well-formed grid leaves a well-formed grid: all 64
/// squares are still covered, and no square holds two pieces of one colour.
pub proof fn lemma_turn_keeps_well_formed(
    g: Grid,
    start: (usize, usize),
    dests: Seq<(usize, usize)>,
    player: Color,
)
    requires
        well_formed(g),
        on_board(start),
        dests.len() >= 1,
        forall|k: int| 0 <= k < dests.len() ==> on_board(#[trigger] dests[k]),
        turn(g, start, dests, player) is Some,
    ensures
        well_formed(turn(g, start, dests, player).unwrap()),
{
    let end = dests.last();
    assert(on_board(end));
    let after = turn(g, start, dests, player).unwrap();
    match g[start] {
        Tile::Empty => {},
        Tile::Single(piece) => {
            if dests.len() == 1 {
                if let Tile::Single(occupant) = g[end] {
                    lemma_landing_meets_enemy(piece, start, g, end, occupant);
                }
                assert forall|p: (usize, usize)| on_board(p) implies sound_tile(
                    #[trigger] after[p],
                ) by {
                    if p != start && p != end {
                        assert(after[p] == g[p]);
                    }
                }
            } else {
                assert(poised(g, start, piece, player));
                lemma_chain_keeps_well_formed(g, start, piece, dests, player);
            }
        },
        Tile::Union { white, black } => {
            assert(sound_tile(g[start]));
            assert forall|p: (usize, usize)| on_board(p) implies sound_tile(
                #[trigger] after[p],
            ) by {
                if p != start && p != end {
                    assert(after[p] == g[p]);
                }
            }
        },
    }
}

} // verus!
