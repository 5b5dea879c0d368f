//! The move generator: for a piece on a square, the squares it reaches,
//! sorted by what stands on them.

use vstd::prelude::*;
use crate::board::{on_board, Board, Grid, Tile};
use crate::piece::{Color, Piece, PieceKind};
use crate::reach_lemmas::{lemma_reach_sorted, sorted_by_occupant};

verus! {

/// The squares a piece can reach from where it stands, sorted by what stands
/// on them: nothing, a lone enemy piece, or a union.
#[derive(Debug, PartialEq, Eq)]
pub struct MoveSet {
    pub empty: Vec<(usize, usize)>,
    pub enemy: Vec<(usize, usize)>,
    pub union: Vec<(usize, usize)>,
}

/// The mathematical model of a `MoveSet`: three sequences of squares.
#[verifier::ext_equal]
pub struct Reach {
    pub empty: Seq<(usize, usize)>,
    pub enemy: Seq<(usize, usize)>,
    pub union: Seq<(usize, usize)>,
}

impl View for MoveSet {
    type V = Reach;

    open spec fn view(&self) -> Reach {
        Reach { empty: self.empty@, enemy: self.enemy@, union: self.union@ }
    }
}

impl Reach {
    /// No square at all.
    pub open spec fn nothing() -> Reach {
        Reach { empty: Seq::empty(), enemy: Seq::empty(), union: Seq::empty() }
    }

    /// One unoccupied square.
    pub open spec fn to_empty(sq: (usize, usize)) -> Reach {
        Reach { empty: seq![sq], enemy: Seq::empty(), union: Seq::empty() }
    }

    /// One square that holds a lone enemy piece.
    pub open spec fn to_enemy(sq: (usize, usize)) -> Reach {
        Reach { empty: Seq::empty(), enemy: seq![sq], union: Seq::empty() }
    }

    /// One square that holds a union.
    pub open spec fn to_union(sq: (usize, usize)) -> Reach {
        Reach { empty: Seq::empty(), enemy: Seq::empty(), union: seq![sq] }
    }

    /// The squares of `self` followed, list by list, by those of `next`.
    pub open spec fn followed_by(self, next: Reach) -> Reach {
        Reach {
            empty: self.empty + next.empty,
            enemy: self.enemy + next.enemy,
            union: self.union + next.union,
        }
    }

    /// Whether `sq` is offered as a landing square: in `empty` or in `enemy`.
    pub open spec fn lands_on(self, sq: (usize, usize)) -> bool {
        self.empty.contains(sq) || self.enemy.contains(sq)
    }
}

/// Whether column `c` and row `r` name a square of the board.
pub open spec fn in_grid(c: int, r: int) -> bool {
    0 <= c < 8 && 0 <= r < 8
}

/// The square in column `c` and row `r`.
pub open spec fn square(c: int, r: int) -> (usize, usize) {
    (c as usize, r as usize)
}

/// Whether `(dc, dr)` is one of the eight unit directions.
pub open spec fn is_direction(dc: int, dr: int) -> bool {
    -1 <= dc <= 1 && -1 <= dr <= 1 && !(dc == 0 && dr == 0)
}

/// The four orthogonal directions, in the order a rook tries them.
pub open spec fn rook_dirs() -> Seq<(i8, i8)> {
    seq![(0i8, 1i8), (0i8, -1i8), (1i8, 0i8), (-1i8, 0i8)]
}

/// The four diagonal directions, in the order a bishop tries them.
pub open spec fn bishop_dirs() -> Seq<(i8, i8)> {
    seq![(1i8, 1i8), (1i8, -1i8), (-1i8, 1i8), (-1i8, -1i8)]
}

/// All eight directions, diagonals first: the order of the queen and the king.
pub open spec fn queen_dirs() -> Seq<(i8, i8)> {
    seq![
        (1i8, 1i8),
        (1i8, -1i8),
        (-1i8, 1i8),
        (-1i8, -1i8),
        (0i8, 1i8),
        (0i8, -1i8),
        (1i8, 0i8),
        (-1i8, 0i8),
    ]
}

/// The eight knight jumps, in the order they are tried.
pub open spec fn knight_jumps() -> Seq<(i8, i8)> {
    seq![
        (2i8, 1i8),
        (1i8, 2i8),
        (1i8, -2i8),
        (2i8, -1i8),
        (-1i8, 2i8),
        (-2i8, 1i8),
        (-1i8, -2i8),
        (-2i8, -1i8),
    ]
}

/// The direction in which a pawn of this colour advances along its column.
pub open spec fn pawn_dir(color: Color) -> int {
    match color {
        Color::White => 1,
        Color::Black => -1,
    }
}

/// The row on which the pawns of this colour start.
pub open spec fn pawn_home(color: Color) -> int {
    match color {
        Color::White => 1,
        Color::Black => 6,
    }
}

/// What a single step onto square `sq` offers `piece`. A knight is offered
/// an empty square, a lone enemy or a union, each in its own list. A king is
/// offered an empty square and a lone enemy alike in `empty`, and no union.
pub open spec fn landing(g: Grid, piece: Piece, sq: (usize, usize)) -> Reach {
    match g[sq] {
        Tile::Empty => Reach::to_empty(sq),
        Tile::Single(other) => if other.color == piece.color {
            Reach::nothing()
        } else if piece.kind == PieceKind::King {
            Reach::to_empty(sq)
        } else {
            Reach::to_enemy(sq)
        },
        Tile::Union { .. } => if piece.kind == PieceKind::King {
            Reach::nothing()
        } else {
            Reach::to_union(sq)
        },
    }
}

/// What a step to column `c`, row `r` offers `piece`: nothing off the board.
pub open spec fn step_to(g: Grid, piece: Piece, c: int, r: int) -> Reach {
    if in_grid(c, r) {
        landing(g, piece, square(c, r))
    } else {
        Reach::nothing()
    }
}

/// What the steps by `offsets` from column `c`, row `r` offer `piece`, in order.
pub open spec fn steps(g: Grid, piece: Piece, c: int, r: int, offsets: Seq<(i8, i8)>) -> Reach
    decreases offsets.len(),
{
    if offsets.len() == 0 {
        Reach::nothing()
    } else {
        steps(g, piece, c, r, offsets.drop_last()).followed_by(
            step_to(g, piece, c + offsets.last().0, r + offsets.last().1),
        )
    }
}

/// How many more squares lie ahead of column `c`, row `r` in direction `(dc, dr)`
/// at most: the measure by which a ray ends.
pub open spec fn ray_left(c: int, r: int, dc: int, dr: int) -> int {
    if dc > 0 {
        7 - c
    } else if dc < 0 {
        c
    } else if dr > 0 {
        7 - r
    } else {
        r
    }
}

/// What a sliding piece of colour `color` reaches from column `c`, row `r` in
/// direction `(dc, dr)`: every empty square up to the first occupied one, then
/// that square if it holds a lone enemy or a union.
pub open spec fn ray(g: Grid, color: Color, c: int, r: int, dc: int, dr: int) -> Reach
    decreases ray_left(c, r, dc, dr),
    when in_grid(c, r) && is_direction(dc, dr)
{
    if !in_grid(c + dc, r + dr) {
        Reach::nothing()
    } else {
        let sq = square(c + dc, r + dr);
        match g[sq] {
            Tile::Empty => Reach::to_empty(sq).followed_by(ray(g, color, c + dc, r + dr, dc, dr)),
            Tile::Single(other) => if other.color == color {
                Reach::nothing()
            } else {
                Reach::to_enemy(sq)
            },
            Tile::Union { .. } => Reach::to_union(sq),
        }
    }
}

/// What the rays in the directions `dirs` reach, one direction after the other.
pub open spec fn slides(g: Grid, color: Color, c: int, r: int, dirs: Seq<(i8, i8)>) -> Reach
    decreases dirs.len(),
{
    if dirs.len() == 0 {
        Reach::nothing()
    } else {
        slides(g, color, c, r, dirs.drop_last()).followed_by(
            ray(g, color, c, r, dirs.last().0 as int, dirs.last().1 as int),
        )
    }
}

/// The advance of a pawn: one square forward if it is empty, and from the
/// home row a second one if that is empty too.
pub open spec fn pawn_advance(g: Grid, color: Color, c: int, r: int) -> Reach {
    let one = r + pawn_dir(color);
    let two = r + 2 * pawn_dir(color);
    if in_grid(c, one) && g[square(c, one)] is Empty {
        if in_grid(c, two) && g[square(c, two)] is Empty && r == pawn_home(color) {
            Reach::to_empty(square(c, one)).followed_by(Reach::to_empty(square(c, two)))
        } else {
            Reach::to_empty(square(c, one))
        }
    } else {
        Reach::nothing()
    }
}

/// What the diagonal step to column `c`, row `r` offers a pawn: a lone enemy
/// to capture or a union, and nothing on an empty square or off the board.
pub open spec fn pawn_capture(g: Grid, color: Color, c: int, r: int) -> Reach {
    if in_grid(c, r) {
        match g[square(c, r)] {
            Tile::Empty => Reach::nothing(),
            Tile::Single(other) => if other.color == color {
                Reach::nothing()
            } else {
                Reach::to_enemy(square(c, r))
            },
            Tile::Union { .. } => Reach::to_union(square(c, r)),
        }
    } else {
        Reach::nothing()
    }
}

/// Everything a pawn reaches: its advance, then the capture towards the
/// lower column, then the capture towards the higher column.
pub open spec fn pawn_reach(g: Grid, color: Color, c: int, r: int) -> Reach {
    pawn_advance(g, color, c, r).followed_by(
        pawn_capture(g, color, c - 1, r + pawn_dir(color)),
    ).followed_by(pawn_capture(g, color, c + 1, r + pawn_dir(color)))
}

/// The squares that `piece` reaches from `pos` on grid `g`. The piece is
/// taken as given: what stands on `pos` itself plays no part.
pub open spec fn reach(piece: Piece, pos: (usize, usize), g: Grid) -> Reach {
    let c = pos.0 as int;
    let r = pos.1 as int;
    match piece.kind {
        PieceKind::Pawn => pawn_reach(g, piece.color, c, r),
        PieceKind::Knight => steps(g, piece, c, r, knight_jumps()),
        PieceKind::Bishop => slides(g, piece.color, c, r, bishop_dirs()),
        PieceKind::Rook => slides(g, piece.color, c, r, rook_dirs()),
        PieceKind::Queen => slides(g, piece.color, c, r, queen_dirs()),
        PieceKind::King => steps(g, piece, c, r, queen_dirs()),
    }
}

/// Whether `piece`, standing on `from`, may land on `to`: `to` is among its
/// `empty` or its `enemy` squares.
pub open spec fn legal_step(piece: Piece, from: (usize, usize), g: Grid, to: (usize, usize)) -> bool {
    reach(piece, from, g).lands_on(to)
}

impl MoveSet {
    /// Three empty lists.
    pub fn new() -> (moves: MoveSet)
        ensures
            moves@ == Reach::nothing(),
    {
        MoveSet { empty: Vec::new(), enemy: Vec::new(), union: Vec::new() }
    }

    /// Whether `pos` is offered as a landing square.
    pub fn lands_on(&self, pos: (usize, usize)) -> (found: bool)
        ensures
            found == self@.lands_on(pos),
    {
        holds(&self.empty, pos) || holds(&self.enemy, pos)
    }
}

/// Whether `pos` occurs in `list`.
pub fn holds(list: &Vec<(usize, usize)>, pos: (usize, usize)) -> (found: bool)
    ensures
        found == list@.contains(pos),
{
    let mut i: usize = 0;
    while i < list.len()
        invariant
            i <= list@.len(),
            forall|k: int| 0 <= k < i ==> list@[k] != pos,
        decreases list@.len() - i,
    {
        if list[i].0 == pos.0 && list[i].1 == pos.1 {
            return true;
        }
        i += 1;
    }
    false
}

/// Moves coordinate `x` by `d`: the new coordinate, or nothing where it
/// would leave the board.
fn offset_coord(x: usize, d: i8) -> (moved: Option<usize>)
    requires
        x < 8,
    ensures
        moved == if 0 <= x + d < 8 {
            Some((x + d) as usize)
        } else {
            None
        },
{
    let sum: i16 = x as i16 + d as i16;
    if 0 <= sum && sum <= 7 {
        Some(sum as usize)
    } else {
        None
    }
}

/// Adds to `moves` what a single step onto `(col, row)` offers `piece`.
fn step_onto(moves: MoveSet, piece: &Piece, board: &Board, col: usize, row: usize) -> (out: MoveSet)
    requires
        col < 8,
        row < 8,
    ensures
        out@ == moves@.followed_by(landing(board@, *piece, (col, row))),
{
    let mut out = moves;
    match board.tiles[col][row] {
        Tile::Empty => {
            out.empty.push((col, row));
        },
        Tile::Single(other) => {
            if other.color != piece.color {
                if piece.kind == PieceKind::King {
                    out.empty.push((col, row));
                } else {
                    out.enemy.push((col, row));
                }
            }
        },
        Tile::Union { .. } => {
            if piece.kind != PieceKind::King {
                out.union.push((col, row));
            }
        },
    }
    out
}

/// Adds to `moves` what the steps by `offsets` from `pos` offer `piece`.
fn step_moves(
    moves: MoveSet,
    piece: &Piece,
    pos: (usize, usize),
    board: &Board,
    offsets: &[(i8, i8)],
) -> (out: MoveSet)
    requires
        on_board(pos),
    ensures
        out@ == moves@.followed_by(
            steps(board@, *piece, pos.0 as int, pos.1 as int, offsets@),
        ),
{
    let ghost before = moves@;
    let mut out = moves;
    let mut i: usize = 0;
    while i < offsets.len()
        invariant
            i <= offsets@.len(),
            on_board(pos),
            out@ == before.followed_by(
                steps(board@, *piece, pos.0 as int, pos.1 as int, offsets@.take(i as int)),
            ),
        decreases offsets@.len() - i,
    {
        let jump: (i8, i8) = offsets[i];
        assert(offsets@.take(i + 1).drop_last() =~= offsets@.take(i as int));
        if let Some(col) = offset_coord(pos.0, jump.0) {
            if let Some(row) = offset_coord(pos.1, jump.1) {
                out = step_onto(out, piece, board, col, row);
            }
        }
        i += 1;
    }
    assert(offsets@.take(i as int) =~= offsets@);
    out
}

/// Adds to `moves` what a sliding `piece` reaches from `pos` along each of
/// the directions `dirs`.
fn generic_piece(
    moves: MoveSet,
    piece: &Piece,
    pos: (usize, usize),
    board: &Board,
    dirs: &[(i8, i8)],
) -> (out: MoveSet)
    requires
        on_board(pos),
        forall|k: int| 0 <= k < dirs@.len() ==> is_direction(dirs@[k].0 as int, dirs@[k].1 as int),
    ensures
        out@ == moves@.followed_by(
            slides(board@, piece.color, pos.0 as int, pos.1 as int, dirs@),
        ),
{
    let ghost before = moves@;
    let ghost g = board@;
    let mut out = moves;
    let mut i: usize = 0;
    while i < dirs.len()
        invariant
            i <= dirs@.len(),
            on_board(pos),
            g == board@,
            forall|k: int|
                0 <= k < dirs@.len() ==> is_direction(dirs@[k].0 as int, dirs@[k].1 as int),
            out@ == before.followed_by(
                slides(g, piece.color, pos.0 as int, pos.1 as int, dirs@.take(i as int)),
            ),
        decreases dirs@.len() - i,
    {
        let dir: (i8, i8) = dirs[i];
        assert(dirs@.take(i + 1).drop_last() =~= dirs@.take(i as int));
        let ghost so_far = out@;
        let ghost whole = ray(g, piece.color, pos.0 as int, pos.1 as int, dir.0 as int, dir.1 as int);
        let mut col: usize = pos.0;
        let mut row: usize = pos.1;
        loop
            invariant_except_break
                out@.followed_by(
                    ray(g, piece.color, col as int, row as int, dir.0 as int, dir.1 as int),
                ) == so_far.followed_by(whole),
            invariant
                col < 8,
                row < 8,
                g == board@,
                is_direction(dir.0 as int, dir.1 as int),
            ensures
                out@ == so_far.followed_by(whole),
            decreases ray_left(col as int, row as int, dir.0 as int, dir.1 as int),
        {
            let new_col: usize = match offset_coord(col, dir.0) {
                Some(c) => c,
                None => {
                    break ;
                },
            };
            let new_row: usize = match offset_coord(row, dir.1) {
                Some(r) => r,
                None => {
                    break ;
                },
            };
            col = new_col;
            row = new_row;
            match board.tiles[col][row] {
                Tile::Empty => {
                    out.empty.push((col, row));
                },
                Tile::Single(other) => {
                    if other.color != piece.color {
                        out.enemy.push((col, row));
                    }
                    break ;
                },
                Tile::Union { .. } => {
                    out.union.push((col, row));
                    break ;
                },
            }
        }
        i += 1;
    }
    assert(dirs@.take(i as int) =~= dirs@);
    out
}

/// The direction in which a pawn of this colour advances.
fn forward(color: Color) -> (dir: i8)
    ensures
        dir == pawn_dir(color),
{
    match color {
        Color::White => 1,
        Color::Black => -1,
    }
}

/// The row on which the pawns of this colour start.
fn home_row(color: Color) -> (row: usize)
    ensures
        row == pawn_home(color),
{
    match color {
        Color::White => 1,
        Color::Black => 6,
    }
}

/// Adds to `moves` the advance of a pawn from `pos`.
fn pawn_forward(moves: MoveSet, piece: &Piece, pos: (usize, usize), board: &Board) -> (out:
    MoveSet)
    requires
        on_board(pos),
    ensures
        out@ == moves@.followed_by(
            pawn_advance(board@, piece.color, pos.0 as int, pos.1 as int),
        ),
{
    let mut out = moves;
    let dir: i8 = forward(piece.color);
    let start_row: usize = home_row(piece.color);
    if let Some(next) = offset_coord(pos.1, dir) {
        assert(board@[(pos.0, next)] == board.tiles[pos.0 as int][next as int]);
        if board.tiles[pos.0][next] == Tile::Empty {
            out.empty.push((pos.0, next));
            if let Some(next) = offset_coord(pos.1, 2 * dir) {
                assert(board@[(pos.0, next)] == board.tiles[pos.0 as int][next as int]);
                if board.tiles[pos.0][next] == Tile::Empty && start_row == pos.1 {
                    out.empty.push((pos.0, next));
                }
            }
        }
    }
    out
}

/// Adds to `moves` what the diagonal step towards column `pos.0 + side`
/// offers a pawn on `pos`.
fn pawn_takes(moves: MoveSet, piece: &Piece, pos: (usize, usize), board: &Board, side: i8) -> (out:
    MoveSet)
    requires
        on_board(pos),
    ensures
        out@ == moves@.followed_by(
            pawn_capture(board@, piece.color, pos.0 + side, pos.1 + pawn_dir(piece.color)),
        ),
{
    let mut out = moves;
    let dir: i8 = forward(piece.color);
    if let Some(col) = offset_coord(pos.0, side) {
        if let Some(row) = offset_coord(pos.1, dir) {
            assert(board@[(col, row)] == board.tiles[col as int][row as int]);
            match board.tiles[col][row] {
                Tile::Single(other) => {
                    if other.color != piece.color {
                        out.enemy.push((col, row));
                    }
                },
                Tile::Union { .. } => {
                    out.union.push((col, row));
                },
                Tile::Empty => {},
            }
        }
    }
    out
}

/// Adds to `moves` what a pawn reaches from `pos`.
fn pawn_moves(moves: MoveSet, piece: &Piece, pos: (usize, usize), board: &Board) -> (out: MoveSet)
    requires
        on_board(pos),
    ensures
        out@ == moves@.followed_by(pawn_reach(board@, piece.color, pos.0 as int, pos.1 as int)),
{
    let advanced = pawn_forward(moves, piece, pos, board);
    let lower = pawn_takes(advanced, piece, pos, board, -1);
    let out = pawn_takes(lower, piece, pos, board, 1);
    out
}

impl Piece {
    /// The squares this piece reaches from `pos` on `board`, sorted by what
    /// stands on them. The result depends on the piece, the square and the
    /// board alone: the same three give the same lists, in the same order.
    /// Every square offered lies on the board and stands in the list that
    /// fits its occupant.
    pub fn valid_moves(&self, pos: (usize, usize), board: &Board) -> (moves: MoveSet)
        requires
            on_board(pos),
        ensures
            moves@ == reach(*self, pos, board@),
            sorted_by_occupant(board@, *self, moves@),
    {
        proof {
            lemma_reach_sorted(*self, pos, board@);
        }
        let moves = MoveSet::new();
        match self.kind {
            PieceKind::Pawn => pawn_moves(moves, self, pos, board),
            PieceKind::Knight => {
                let jumps: [(i8, i8); 8] = [
                    (2, 1),
                    (1, 2),
                    (1, -2),
                    (2, -1),
                    (-1, 2),
                    (-2, 1),
                    (-1, -2),
                    (-2, -1),
                ];
                assert(jumps@ =~= knight_jumps());
                step_moves(moves, self, pos, board, &jumps)
            },
            PieceKind::Rook => {
                let dirs: [(i8, i8); 4] = [(0, 1), (0, -1), (1, 0), (-1, 0)];
                assert(dirs@ =~= rook_dirs());
                generic_piece(moves, self, pos, board, &dirs)
            },
            PieceKind::Bishop => {
                let dirs: [(i8, i8); 4] = [(1, 1), (1, -1), (-1, 1), (-1, -1)];
                assert(dirs@ =~= bishop_dirs());
                generic_piece(moves, self, pos, board, &dirs)
            },
            PieceKind::Queen => {
                let dirs: [(i8, i8); 8] = [
                    (1, 1),
                    (1, -1),
                    (-1, 1),
                    (-1, -1),
                    (0, 1),
                    (0, -1),
                    (1, 0),
                    (-1, 0),
                ];
                assert(dirs@ =~= queen_dirs());
                generic_piece(moves, self, pos, board, &dirs)
            },
            PieceKind::King => {
                let dirs: [(i8, i8); 8] = [
                    (1, 1),
                    (1, -1),
                    (-1, 1),
                    (-1, -1),
                    (0, 1),
                    (0, -1),
                    (1, 0),
                    (-1, 0),
                ];
                assert(dirs@ =~= queen_dirs());
                step_moves(moves, self, pos, board, &dirs)
            },
        }
    }
}

} // verus!
