//! What holds of the squares that the move generator offers.

use vstd::prelude::*;
use crate::board::{on_board, Grid, Tile};
use crate::moves::{
    bishop_dirs, in_grid, is_direction, knight_jumps, landing, pawn_advance, pawn_capture,
    pawn_dir, pawn_home, pawn_reach, queen_dirs, ray, ray_left, reach, rook_dirs, slides, square,
    step_to, steps, Reach,
};
use crate::piece::{Color, Piece, PieceKind};

verus! {

/// Square `sq` is free for `piece` to land on without a capture being
/// recorded: it is empty, or the piece is a king and a lone enemy stands there.
pub open spec fn free_for(g: Grid, piece: Piece, sq: (usize, usize)) -> bool {
    on_board(sq) && match g[sq] {
        Tile::Empty => true,
        Tile::Single(other) => piece.kind == PieceKind::King && other.color != piece.color,
        Tile::Union { .. } => false,
    }
}

/// Square `sq` holds a lone piece of the other colour.
pub open spec fn foe_for(g: Grid, piece: Piece, sq: (usize, usize)) -> bool {
    on_board(sq) && (g[sq] matches Tile::Single(other) && other.color != piece.color)
}

/// Square `sq` holds a union.
pub open spec fn union_at(g: Grid, sq: (usize, usize)) -> bool {
    on_board(sq) && g[sq] is Union
}

/// Every square of `m` stands in the list that fits what `g` holds there.
pub open spec fn sorted_by_occupant(g: Grid, piece: Piece, m: Reach) -> bool {
    &&& forall|sq: (usize, usize)| m.empty.contains(sq) ==> free_for(g, piece, sq)
    &&& forall|sq: (usize, usize)| m.enemy.contains(sq) ==> foe_for(g, piece, sq)
    &&& forall|sq: (usize, usize)| m.union.contains(sq) ==> union_at(g, sq)
}

proof fn lemma_sorted_join(g: Grid, piece: Piece, a: Reach, b: Reach)
    requires
        sorted_by_occupant(g, piece, a),
        sorted_by_occupant(g, piece, b),
    ensures
        sorted_by_occupant(g, piece, a.followed_by(b)),
{
    let m = a.followed_by(b);
    assert forall|sq: (usize, usize)| m.empty.contains(sq) implies free_for(g, piece, sq) by {
        let i = choose|i: int| 0 <= i < m.empty.len() && m.empty[i] == sq;
        if i < a.empty.len() {
            assert(a.empty[i] == sq);
        } else {
            assert(b.empty[i - a.empty.len()] == sq);
        }
    }
    assert forall|sq: (usize, usize)| m.enemy.contains(sq) implies foe_for(g, piece, sq) by {
        let i = choose|i: int| 0 <= i < m.enemy.len() && m.enemy[i] == sq;
        if i < a.enemy.len() {
            assert(a.enemy[i] == sq);
        } else {
            assert(b.enemy[i - a.enemy.len()] == sq);
        }
    }
    assert forall|sq: (usize, usize)| m.union.contains(sq) implies union_at(g, sq) by {
        let i = choose|i: int| 0 <= i < m.union.len() && m.union[i] == sq;
        if i < a.union.len() {
            assert(a.union[i] == sq);
        } else {
            assert(b.union[i - a.union.len()] == sq);
        }
    }
}

proof fn lemma_step_sorted(g: Grid, piece: Piece, c: int, r: int)
    ensures
        sorted_by_occupant(g, piece, step_to(g, piece, c, r)),
{
    if in_grid(c, r) {
        let sq = square(c, r);
        let m = landing(g, piece, sq);
        assert(on_board(sq));
        assert forall|x: (usize, usize)| m.empty.contains(x) implies free_for(g, piece, x) by {
            assert(m.empty.len() == 1 && m.empty[0] == sq);
        }
        assert forall|x: (usize, usize)| m.enemy.contains(x) implies foe_for(g, piece, x) by {
            assert(m.enemy.len() == 1 && m.enemy[0] == sq);
        }
        assert forall|x: (usize, usize)| m.union.contains(x) implies union_at(g, x) by {
            assert(m.union.len() == 1 && m.union[0] == sq);
        }
    }
}

proof fn lemma_steps_sorted(g: Grid, piece: Piece, c: int, r: int, offsets: Seq<(i8, i8)>)
    ensures
        sorted_by_occupant(g, piece, steps(g, piece, c, r, offsets)),
    decreases offsets.len(),
{
    if offsets.len() > 0 {
        lemma_steps_sorted(g, piece, c, r, offsets.drop_last());
        lemma_step_sorted(g, piece, c + offsets.last().0, r + offsets.last().1);
        lemma_sorted_join(
            g,
            piece,
            steps(g, piece, c, r, offsets.drop_last()),
            step_to(g, piece, c + offsets.last().0, r + offsets.last().1),
        );
    }
}

proof fn lemma_ray_sorted(g: Grid, piece: Piece, c: int, r: int, dc: int, dr: int)
    requires
        in_grid(c, r),
        is_direction(dc, dr),
    ensures
        sorted_by_occupant(g, piece, ray(g, piece.color, c, r, dc, dr)),
    decreases ray_left(c, r, dc, dr),
{
    if in_grid(c + dc, r + dr) {
        let sq = square(c + dc, r + dr);
        assert(on_board(sq));
        let head = match g[sq] {
            Tile::Empty => Reach::to_empty(sq),
            Tile::Single(other) => if other.color == piece.color {
                Reach::nothing()
            } else {
                Reach::to_enemy(sq)
            },
            Tile::Union { .. } => Reach::to_union(sq),
        };
        assert forall|x: (usize, usize)| head.empty.contains(x) implies free_for(g, piece, x) by {
            assert(head.empty.len() == 1 && head.empty[0] == sq);
        }
        assert forall|x: (usize, usize)| head.enemy.contains(x) implies foe_for(g, piece, x) by {
            assert(head.enemy.len() == 1 && head.enemy[0] == sq);
        }
        assert forall|x: (usize, usize)| head.union.contains(x) implies union_at(g, x) by {
            assert(head.union.len() == 1 && head.union[0] == sq);
        }
        if g[sq] is Empty {
            lemma_ray_sorted(g, piece, c + dc, r + dr, dc, dr);
            lemma_sorted_join(g, piece, head, ray(g, piece.color, c + dc, r + dr, dc, dr));
        } else {
            assert(ray(g, piece.color, c, r, dc, dr) == head);
        }
    }
}

proof fn lemma_slides_sorted(g: Grid, piece: Piece, c: int, r: int, dirs: Seq<(i8, i8)>)
    requires
        in_grid(c, r),
        forall|k: int| 0 <= k < dirs.len() ==> is_direction(dirs[k].0 as int, dirs[k].1 as int),
    ensures
        sorted_by_occupant(g, piece, slides(g, piece.color, c, r, dirs)),
    decreases dirs.len(),
{
    if dirs.len() > 0 {
        lemma_slides_sorted(g, piece, c, r, dirs.drop_last());
        lemma_ray_sorted(g, piece, c, r, dirs.last().0 as int, dirs.last().1 as int);
        lemma_sorted_join(
            g,
            piece,
            slides(g, piece.color, c, r, dirs.drop_last()),
            ray(g, piece.color, c, r, dirs.last().0 as int, dirs.last().1 as int),
        );
    }
}

proof fn lemma_pawn_sorted(g: Grid, piece: Piece, c: int, r: int)
    requires
        in_grid(c, r),
    ensures
        sorted_by_occupant(g, piece, pawn_reach(g, piece.color, c, r)),
{
    let color = piece.color;
    let adv = pawn_advance(g, color, c, r);
    let low = pawn_capture(g, color, c - 1, r + pawn_dir(color));
    let high = pawn_capture(g, color, c + 1, r + pawn_dir(color));
    assert forall|x: (usize, usize)| adv.empty.contains(x) implies free_for(g, piece, x) by {
        let i = choose|i: int| 0 <= i < adv.empty.len() && adv.empty[i] == x;
        assert(i == 0 || i == 1);
    }
    assert(sorted_by_occupant(g, piece, adv));
    assert forall|x: (usize, usize)| low.enemy.contains(x) implies foe_for(g, piece, x) by {
        assert(low.enemy.len() == 1 && low.enemy[0] == x);
    }
    assert forall|x: (usize, usize)| low.union.contains(x) implies union_at(g, x) by {
        assert(low.union.len() == 1 && low.union[0] == x);
    }
    assert(sorted_by_occupant(g, piece, low));
    assert forall|x: (usize, usize)| high.enemy.contains(x) implies foe_for(g, piece, x) by {
        assert(high.enemy.len() == 1 && high.enemy[0] == x);
    }
    assert forall|x: (usize, usize)| high.union.contains(x) implies union_at(g, x) by {
        assert(high.union.len() == 1 && high.union[0] == x);
    }
    assert(sorted_by_occupant(g, piece, high));
    lemma_sorted_join(g, piece, adv, low);
    lemma_sorted_join(g, piece, adv.followed_by(low), high);
}

/// Every square that the move generator offers lies on the board and stands
/// in the list that fits its occupant: `empty` holds empty squares (and, for
/// a king, lone enemies), `enemy` holds lone enemies, `union` holds unions.
/// No list ever holds a square with a lone piece of the mover's own colour.
pub proof fn lemma_reach_sorted(piece: Piece, pos: (usize, usize), g: Grid)
    requires
        on_board(pos),
    ensures
        sorted_by_occupant(g, piece, reach(piece, pos, g)),
{
    let c = pos.0 as int;
    let r = pos.1 as int;
    match piece.kind {
        PieceKind::Pawn => lemma_pawn_sorted(g, piece, c, r),
        PieceKind::Knight => lemma_steps_sorted(g, piece, c, r, knight_jumps()),
        PieceKind::Bishop => lemma_slides_sorted(g, piece, c, r, bishop_dirs()),
        PieceKind::Rook => lemma_slides_sorted(g, piece, c, r, rook_dirs()),
        PieceKind::Queen => lemma_slides_sorted(g, piece, c, r, queen_dirs()),
        PieceKind::King => lemma_steps_sorted(g, piece, c, r, queen_dirs()),
    }
}

proof fn lemma_king_steps(g: Grid, king: Piece, c: int, r: int, offsets: Seq<(i8, i8)>)
    requires
        king.kind == PieceKind::King,
    ensures
        steps(g, king, c, r, offsets).enemy =~= Seq::empty(),
        steps(g, king, c, r, offsets).union =~= Seq::empty(),
    decreases offsets.len(),
{
    if offsets.len() > 0 {
        lemma_king_steps(g, king, c, r, offsets.drop_last());
    }
}

/// A king is offered every square under `empty`: a lone enemy within its
/// step stands there too, and a union is not offered at all.
pub proof fn lemma_king_offers_empty_only(
    color: Color,
    has_moved: bool,
    pos: (usize, usize),
    g: Grid,
)
    ensures
        ({
            let king = Piece { kind: PieceKind::King, color, has_moved };
            &&& reach(king, pos, g).enemy =~= Seq::empty()
            &&& reach(king, pos, g).union =~= Seq::empty()
        }),
{
    let king = Piece { kind: PieceKind::King, color, has_moved };
    lemma_king_steps(g, king, pos.0 as int, pos.1 as int, queen_dirs());
}

/// A pawn that has left its home row is offered at most one square to
/// advance to: the one directly ahead, and only while that is empty.
pub proof fn lemma_pawn_away_from_home(color: Color, has_moved: bool, pos: (usize, usize), g: Grid)
    requires
        on_board(pos),
        pos.1 != pawn_home(color),
    ensures
        ({
            let pawn = Piece { kind: PieceKind::Pawn, color, has_moved };
            let ahead = pos.1 + pawn_dir(color);
            reach(pawn, pos, g).empty =~= if in_grid(pos.0 as int, ahead) && g[square(
                pos.0 as int,
                ahead,
            )] is Empty {
                seq![square(pos.0 as int, ahead)]
            } else {
                Seq::empty()
            }
        }),
{
}

/// A pawn on its home row with the two squares ahead empty, and nothing to
/// take on either diagonal, is offered exactly those two squares.
pub proof fn lemma_pawn_from_home(color: Color, has_moved: bool, pos: (usize, usize), g: Grid)
    requires
        on_board(pos),
        pos.1 == pawn_home(color),
        g[square(pos.0 as int, pos.1 + pawn_dir(color))] is Empty,
        g[square(pos.0 as int, pos.1 + 2 * pawn_dir(color))] is Empty,
        pos.0 > 0 ==> g[square(pos.0 - 1, pos.1 + pawn_dir(color))] is Empty,
        pos.0 < 7 ==> g[square(pos.0 + 1, pos.1 + pawn_dir(color))] is Empty,
    ensures
        ({
            let pawn = Piece { kind: PieceKind::Pawn, color, has_moved };
            let m = reach(pawn, pos, g);
            &&& m.empty =~= seq![
                square(pos.0 as int, pos.1 + pawn_dir(color)),
                square(pos.0 as int, pos.1 + 2 * pawn_dir(color)),
            ]
            &&& m.enemy =~= Seq::empty()
            &&& m.union =~= Seq::empty()
        }),
{
}

/// `k` steps in a direction whose component is `d`: the change of that
/// coordinate.
pub open spec fn scaled(d: int, k: int) -> int {
    if d > 0 {
        k
    } else if d < 0 {
        -k
    } else {
        0
    }
}

/// Whether the `k`-th square from column `c`, row `r` in direction
/// `(dc, dr)` is still on the board.
pub open spec fn on_ray(c: int, r: int, dc: int, dr: int, k: int) -> bool {
    in_grid(c + scaled(dc, k), r + scaled(dr, k))
}

/// The `k`-th square from column `c`, row `r` in direction `(dc, dr)`.
pub open spec fn spot(c: int, r: int, dc: int, dr: int, k: int) -> (usize, usize) {
    square(c + scaled(dc, k), r + scaled(dr, k))
}

/// Whether the `k`-th square in direction `(dc, dr)` is on the board and empty.
pub open spec fn empty_at(g: Grid, c: int, r: int, dc: int, dr: int, k: int) -> bool {
    on_ray(c, r, dc, dr, k) && g[spot(c, r, dc, dr, k)] is Empty
}

/// Whether the first `n` squares in direction `(dc, dr)` are all on the
/// board and empty.
pub open spec fn open_up_to(g: Grid, c: int, r: int, dc: int, dr: int, n: int) -> bool {
    forall|k: int| 1 <= k <= n ==> #[trigger] empty_at(g, c, r, dc, dr, k)
}

/// The shape of a ray. Let the `n`-th square in the direction be the first
/// that is not an empty square of the board. Then the ray offers exactly the
/// `n - 1` squares before it as `empty`, in order of distance; it offers the
/// `n`-th square as `enemy` if a lone piece of the other colour stands
/// there, as `union` if a union stands there, and nothing beyond it.
pub proof fn lemma_ray_shape(g: Grid, color: Color, c: int, r: int, dc: int, dr: int, n: int)
    requires
        in_grid(c, r),
        is_direction(dc, dr),
        n >= 1,
        open_up_to(g, c, r, dc, dr, n - 1),
        !empty_at(g, c, r, dc, dr, n),
    ensures
        ({
            let m = ray(g, color, c, r, dc, dr);
            let stop = spot(c, r, dc, dr, n);
            &&& m.empty =~= Seq::new((n - 1) as nat, |i: int| spot(c, r, dc, dr, i + 1))
            &&& m.enemy =~= if on_ray(c, r, dc, dr, n) && (g[stop] matches Tile::Single(other)
                && other.color != color) {
                seq![stop]
            } else {
                Seq::empty()
            }
            &&& m.union =~= if on_ray(c, r, dc, dr, n) && g[stop] is Union {
                seq![stop]
            } else {
                Seq::empty()
            }
        }),
    decreases n,
{
    let m = ray(g, color, c, r, dc, dr);
    assert(spot(c, r, dc, dr, 1) == square(c + dc, r + dr));
    assert(on_ray(c, r, dc, dr, 1) == in_grid(c + dc, r + dr));
    if n == 1 {
        assert(m.empty =~= Seq::new(0nat, |i: int| spot(c, r, dc, dr, i + 1)));
    } else {
        assert(empty_at(g, c, r, dc, dr, 1));
        let c1 = c + dc;
        let r1 = r + dr;
        let tail = ray(g, color, c1, r1, dc, dr);
        assert forall|k: int| 1 <= k <= n - 2 implies #[trigger] empty_at(
            g,
            c1,
            r1,
            dc,
            dr,
            k,
        ) by {
            assert(empty_at(g, c, r, dc, dr, k + 1));
            assert(spot(c1, r1, dc, dr, k) == spot(c, r, dc, dr, k + 1));
        }
        assert(spot(c1, r1, dc, dr, n - 1) == spot(c, r, dc, dr, n));
        assert(on_ray(c1, r1, dc, dr, n - 1) == on_ray(c, r, dc, dr, n));
        lemma_ray_shape(g, color, c1, r1, dc, dr, n - 1);
        assert(m == Reach::to_empty(square(c1, r1)).followed_by(tail));
        let want = Seq::new((n - 1) as nat, |i: int| spot(c, r, dc, dr, i + 1));
        assert(m.empty.len() == want.len());
        assert forall|i: int| 0 <= i < want.len() implies m.empty[i] == want[i] by {
            if i > 0 {
                assert(m.empty[i] == tail.empty[i - 1]);
                assert(spot(c1, r1, dc, dr, i) == spot(c, r, dc, dr, i + 1));
            }
        }
    }
}

/// Every ray stops: some square within eight steps is the first that is
/// not an empty square of the board. The result is its distance.
pub proof fn lemma_ray_stops(g: Grid, c: int, r: int, dc: int, dr: int) -> (n: int)
    requires
        in_grid(c, r),
        is_direction(dc, dr),
    ensures
        1 <= n <= ray_left(c, r, dc, dr) + 1,
        open_up_to(g, c, r, dc, dr, n - 1),
        !empty_at(g, c, r, dc, dr, n),
    decreases ray_left(c, r, dc, dr),
{
    assert(spot(c, r, dc, dr, 1) == square(c + dc, r + dr));
    assert(on_ray(c, r, dc, dr, 1) == in_grid(c + dc, r + dr));
    if empty_at(g, c, r, dc, dr, 1) {
        let c1 = c + dc;
        let r1 = r + dr;
        let n1 = lemma_ray_stops(g, c1, r1, dc, dr);
        assert forall|k: int| 1 <= k <= n1 implies #[trigger] empty_at(g, c, r, dc, dr, k) by {
            if k > 1 {
                assert(empty_at(g, c1, r1, dc, dr, k - 1));
                assert(spot(c1, r1, dc, dr, k - 1) == spot(c, r, dc, dr, k));
            }
        }
        assert(spot(c1, r1, dc, dr, n1) == spot(c, r, dc, dr, n1 + 1));
        assert(on_ray(c1, r1, dc, dr, n1) == on_ray(c, r, dc, dr, n1 + 1));
        n1 + 1
    } else {
        1
    }
}

/// Square `sq` is the `k`-th square in direction `(dc, dr)` and every
/// square up to and including it is an empty square of the board.
pub open spec fn slide_reaches(
    g: Grid,
    c: int,
    r: int,
    dc: int,
    dr: int,
    sq: (usize, usize),
    k: int,
) -> bool {
    1 <= k <= 7 && sq == spot(c, r, dc, dr, k) && open_up_to(g, c, r, dc, dr, k)
}

/// Square `sq` is the `k`-th square in direction `(dc, dr)`, it lies on the
/// board, and every square before it is an empty square of the board.
pub open spec fn slide_meets(
    g: Grid,
    c: int,
    r: int,
    dc: int,
    dr: int,
    sq: (usize, usize),
    k: int,
) -> bool {
    1 <= k <= 7 && on_ray(c, r, dc, dr, k) && sq == spot(c, r, dc, dr, k) && open_up_to(
        g,
        c,
        r,
        dc,
        dr,
        k - 1,
    )
}

/// What a ray offers, square by square. It offers `sq` as `empty` exactly
/// if the way to `sq` is clear and `sq` is empty; as `enemy` exactly if the
/// way to `sq` is clear and a lone piece of the other colour stands on it;
/// as `union` exactly if the way to `sq` is clear and a union stands on it.
pub proof fn lemma_ray_member(
    g: Grid,
    color: Color,
    c: int,
    r: int,
    dc: int,
    dr: int,
    sq: (usize, usize),
)
    requires
        in_grid(c, r),
        is_direction(dc, dr),
    ensures
        ray(g, color, c, r, dc, dr).empty.contains(sq) <==> exists|k: int|
            slide_reaches(g, c, r, dc, dr, sq, k),
        ray(g, color, c, r, dc, dr).enemy.contains(sq) <==> (exists|k: int|
            slide_meets(g, c, r, dc, dr, sq, k)) && (g[sq] matches Tile::Single(other)
            && other.color != color),
        ray(g, color, c, r, dc, dr).union.contains(sq) <==> (exists|k: int|
            slide_meets(g, c, r, dc, dr, sq, k)) && g[sq] is Union,
{
    let m = ray(g, color, c, r, dc, dr);
    let n = lemma_ray_stops(g, c, r, dc, dr);
    lemma_ray_shape(g, color, c, r, dc, dr, n);
    let stop = spot(c, r, dc, dr, n);
    lemma_spots_differ(c, r, dc, dr);
    // empty
    if m.empty.contains(sq) {
        let i = choose|i: int| 0 <= i < m.empty.len() && m.empty[i] == sq;
        assert(empty_at(g, c, r, dc, dr, i + 1));
        assert(slide_reaches(g, c, r, dc, dr, sq, i + 1));
    }
    if exists|k: int| slide_reaches(g, c, r, dc, dr, sq, k) {
        let k = choose|k: int| slide_reaches(g, c, r, dc, dr, sq, k);
        if k >= n {
            assert(empty_at(g, c, r, dc, dr, n));
        }
        assert(m.empty[k - 1] == sq);
    }
    // what stands on the square where the ray stops
    if m.enemy.contains(sq) || m.union.contains(sq) {
        assert(m.enemy.len() + m.union.len() > 0);
        assert(on_ray(c, r, dc, dr, n));
        assert(m.enemy.contains(sq) ==> m.enemy[0] == sq);
        assert(m.union.contains(sq) ==> m.union[0] == sq);
        assert(sq == stop);
        assert(slide_meets(g, c, r, dc, dr, sq, n));
    }
    if exists|k: int| slide_meets(g, c, r, dc, dr, sq, k) {
        let k = choose|k: int| slide_meets(g, c, r, dc, dr, sq, k);
        if !(g[sq] is Empty) {
            if k > n {
                assert(empty_at(g, c, r, dc, dr, n));
            }
            if k < n {
                assert(empty_at(g, c, r, dc, dr, k));
            }
            assert(k == n);
            if g[sq] matches Tile::Single(other) && other.color != color {
                assert(m.enemy[0] == sq);
            }
            if g[sq] is Union {
                assert(m.union[0] == sq);
            }
        }
    }
}

/// Along one direction every square lies on the board, and squares at
/// different distances within the board are different squares.
proof fn lemma_spots_differ(c: int, r: int, dc: int, dr: int)
    requires
        in_grid(c, r),
        is_direction(dc, dr),
    ensures
        forall|j: int, k: int|
            on_ray(c, r, dc, dr, j) && on_ray(c, r, dc, dr, k) && j != k ==> #[trigger] spot(
                c,
                r,
                dc,
                dr,
                j,
            ) != #[trigger] spot(c, r, dc, dr, k),
{
}

/// Whether a ray in one of the directions `dirs` offers `sq` as `empty`.
pub open spec fn some_slide_reaches(
    g: Grid,
    c: int,
    r: int,
    dirs: Seq<(i8, i8)>,
    sq: (usize, usize),
) -> bool {
    exists|i: int, k: int|
        0 <= i < dirs.len() && #[trigger] slide_reaches(
            g,
            c,
            r,
            dirs[i].0 as int,
            dirs[i].1 as int,
            sq,
            k,
        )
}

/// Whether a ray in one of the directions `dirs` finds its way clear up to `sq`.
pub open spec fn some_slide_meets(
    g: Grid,
    c: int,
    r: int,
    dirs: Seq<(i8, i8)>,
    sq: (usize, usize),
) -> bool {
    exists|i: int, k: int|
        0 <= i < dirs.len() && #[trigger] slide_meets(
            g,
            c,
            r,
            dirs[i].0 as int,
            dirs[i].1 as int,
            sq,
            k,
        )
}

/// What rays in several directions offer, square by square: what one of
/// them offers.
pub proof fn lemma_slides_member(
    g: Grid,
    color: Color,
    c: int,
    r: int,
    dirs: Seq<(i8, i8)>,
    sq: (usize, usize),
)
    requires
        in_grid(c, r),
        forall|k: int| 0 <= k < dirs.len() ==> is_direction(dirs[k].0 as int, dirs[k].1 as int),
    ensures
        slides(g, color, c, r, dirs).empty.contains(sq) <==> some_slide_reaches(g, c, r, dirs, sq),
        slides(g, color, c, r, dirs).enemy.contains(sq) <==> some_slide_meets(g, c, r, dirs, sq)
            && (g[sq] matches Tile::Single(other) && other.color != color),
        slides(g, color, c, r, dirs).union.contains(sq) <==> some_slide_meets(g, c, r, dirs, sq)
            && g[sq] is Union,
    decreases dirs.len(),
{
    if dirs.len() == 0 {
        assert(slides(g, color, c, r, dirs).empty =~= Seq::empty());
    } else {
        let front = dirs.drop_last();
        let last = dirs.len() - 1;
        let dc = dirs.last().0 as int;
        let dr = dirs.last().1 as int;
        let a = slides(g, color, c, r, front);
        let b = ray(g, color, c, r, dc, dr);
        lemma_slides_member(g, color, c, r, front, sq);
        lemma_ray_member(g, color, c, r, dc, dr, sq);
        lemma_contains_join(a.empty, b.empty, sq);
        lemma_contains_join(a.enemy, b.enemy, sq);
        lemma_contains_join(a.union, b.union, sq);
        assert(some_slide_reaches(g, c, r, dirs, sq) <==> some_slide_reaches(g, c, r, front, sq)
            || exists|k: int| slide_reaches(g, c, r, dc, dr, sq, k)) by {
            if some_slide_reaches(g, c, r, front, sq) {
                let (i, k) = choose|i: int, k: int|
                    0 <= i < front.len() && #[trigger] slide_reaches(
                        g,
                        c,
                        r,
                        front[i].0 as int,
                        front[i].1 as int,
                        sq,
                        k,
                    );
                assert(front[i] == dirs[i]);
                assert(slide_reaches(g, c, r, dirs[i].0 as int, dirs[i].1 as int, sq, k));
            }
            if exists|k: int| slide_reaches(g, c, r, dc, dr, sq, k) {
                let k = choose|k: int| slide_reaches(g, c, r, dc, dr, sq, k);
                assert(slide_reaches(g, c, r, dirs[last].0 as int, dirs[last].1 as int, sq, k));
            }
            if some_slide_reaches(g, c, r, dirs, sq) {
                let (i, k) = choose|i: int, k: int|
                    0 <= i < dirs.len() && #[trigger] slide_reaches(
                        g,
                        c,
                        r,
                        dirs[i].0 as int,
                        dirs[i].1 as int,
                        sq,
                        k,
                    );
                if i < last {
                    assert(front[i] == dirs[i]);
                    assert(slide_reaches(g, c, r, front[i].0 as int, front[i].1 as int, sq, k));
                }
            }
        }
        assert(some_slide_meets(g, c, r, dirs, sq) <==> some_slide_meets(g, c, r, front, sq)
            || exists|k: int| slide_meets(g, c, r, dc, dr, sq, k)) by {
            if some_slide_meets(g, c, r, front, sq) {
                let (i, k) = choose|i: int, k: int|
                    0 <= i < front.len() && #[trigger] slide_meets(
                        g,
                        c,
                        r,
                        front[i].0 as int,
                        front[i].1 as int,
                        sq,
                        k,
                    );
                assert(front[i] == dirs[i]);
                assert(slide_meets(g, c, r, dirs[i].0 as int, dirs[i].1 as int, sq, k));
            }
            if exists|k: int| slide_meets(g, c, r, dc, dr, sq, k) {
                let k = choose|k: int| slide_meets(g, c, r, dc, dr, sq, k);
                assert(slide_meets(g, c, r, dirs[last].0 as int, dirs[last].1 as int, sq, k));
            }
            if some_slide_meets(g, c, r, dirs, sq) {
                let (i, k) = choose|i: int, k: int|
                    0 <= i < dirs.len() && #[trigger] slide_meets(
                        g,
                        c,
                        r,
                        dirs[i].0 as int,
                        dirs[i].1 as int,
                        sq,
                        k,
                    );
                if i < last {
                    assert(front[i] == dirs[i]);
                    assert(slide_meets(g, c, r, front[i].0 as int, front[i].1 as int, sq, k));
                }
            }
        }
    }
}

/// The directions along which a rook, a bishop or a queen slides.
pub open spec fn slider_dirs(kind: PieceKind) -> Seq<(i8, i8)> {
    match kind {
        PieceKind::Rook => rook_dirs(),
        PieceKind::Bishop => bishop_dirs(),
        _ => queen_dirs(),
    }
}

/// What a rook, a bishop or a queen is offered, square by square: `sq` is
/// offered exactly if it lies in one of the piece's directions with the way
/// to it clear, as `empty` if it is empty, as `enemy` if a lone piece of
/// the other colour stands on it, and as `union` if a union stands on it.
pub proof fn lemma_slider_member(piece: Piece, pos: (usize, usize), g: Grid, sq: (usize, usize))
    requires
        on_board(pos),
        piece.kind == PieceKind::Rook || piece.kind == PieceKind::Bishop || piece.kind
            == PieceKind::Queen,
    ensures
        ({
            let c = pos.0 as int;
            let r = pos.1 as int;
            let dirs = slider_dirs(piece.kind);
            let m = reach(piece, pos, g);
            &&& m.empty.contains(sq) <==> some_slide_reaches(g, c, r, dirs, sq)
            &&& m.enemy.contains(sq) <==> some_slide_meets(g, c, r, dirs, sq) && foe_for(
                g,
                piece,
                sq,
            )
            &&& m.union.contains(sq) <==> some_slide_meets(g, c, r, dirs, sq) && union_at(g, sq)
        }),
{
    let c = pos.0 as int;
    let r = pos.1 as int;
    let dirs = slider_dirs(piece.kind);
    lemma_slides_member(g, piece.color, c, r, dirs, sq);
    if some_slide_meets(g, c, r, dirs, sq) {
        let (i, k) = choose|i: int, k: int|
            0 <= i < dirs.len() && #[trigger] slide_meets(
                g,
                c,
                r,
                dirs[i].0 as int,
                dirs[i].1 as int,
                sq,
                k,
            );
        assert(on_board(sq));
    }
}

/// What the `i`-th of the steps by `offsets` offers `piece`.
pub open spec fn step_at(
    g: Grid,
    piece: Piece,
    c: int,
    r: int,
    offsets: Seq<(i8, i8)>,
    i: int,
) -> Reach {
    step_to(g, piece, c + offsets[i].0, r + offsets[i].1)
}

/// What steps by several offsets offer, square by square: what one of the
/// steps offers.
proof fn lemma_steps_member(
    g: Grid,
    piece: Piece,
    c: int,
    r: int,
    offsets: Seq<(i8, i8)>,
    sq: (usize, usize),
)
    ensures
        steps(g, piece, c, r, offsets).empty.contains(sq) <==> exists|i: int|
            0 <= i < offsets.len() && #[trigger] step_at(g, piece, c, r, offsets, i).empty.contains(
                sq,
            ),
        steps(g, piece, c, r, offsets).enemy.contains(sq) <==> exists|i: int|
            0 <= i < offsets.len() && #[trigger] step_at(g, piece, c, r, offsets, i).enemy.contains(
                sq,
            ),
        steps(g, piece, c, r, offsets).union.contains(sq) <==> exists|i: int|
            0 <= i < offsets.len() && #[trigger] step_at(g, piece, c, r, offsets, i).union.contains(
                sq,
            ),
    decreases offsets.len(),
{
    if offsets.len() > 0 {
        let front = offsets.drop_last();
        let last = offsets.len() - 1;
        let a = steps(g, piece, c, r, front);
        let b = step_at(g, piece, c, r, offsets, last);
        lemma_steps_member(g, piece, c, r, front, sq);
        lemma_contains_join(a.empty, b.empty, sq);
        lemma_contains_join(a.enemy, b.enemy, sq);
        lemma_contains_join(a.union, b.union, sq);
        assert forall|i: int| 0 <= i < front.len() implies #[trigger] step_at(
            g,
            piece,
            c,
            r,
            front,
            i,
        ) == step_at(g, piece, c, r, offsets, i) by {
            assert(front[i] == offsets[i]);
        }
        if exists|i: int|
            0 <= i < front.len() && #[trigger] step_at(g, piece, c, r, front, i).empty.contains(sq) {
            let i = choose|i: int|
                0 <= i < front.len() && #[trigger] step_at(g, piece, c, r, front, i).empty.contains(
                    sq,
                );
            assert(step_at(g, piece, c, r, offsets, i).empty.contains(sq));
        }
        if exists|i: int|
            0 <= i < front.len() && #[trigger] step_at(g, piece, c, r, front, i).enemy.contains(sq) {
            let i = choose|i: int|
                0 <= i < front.len() && #[trigger] step_at(g, piece, c, r, front, i).enemy.contains(
                    sq,
                );
            assert(step_at(g, piece, c, r, offsets, i).enemy.contains(sq));
        }
        if exists|i: int|
            0 <= i < front.len() && #[trigger] step_at(g, piece, c, r, front, i).union.contains(sq) {
            let i = choose|i: int|
                0 <= i < front.len() && #[trigger] step_at(g, piece, c, r, front, i).union.contains(
                    sq,
                );
            assert(step_at(g, piece, c, r, offsets, i).union.contains(sq));
        }
        if exists|i: int|
            0 <= i < offsets.len() && #[trigger] step_at(g, piece, c, r, offsets, i).empty.contains(
                sq,
            ) {
            let i = choose|i: int|
                0 <= i < offsets.len() && #[trigger] step_at(
                    g,
                    piece,
                    c,
                    r,
                    offsets,
                    i,
                ).empty.contains(sq);
            if i < last {
                assert(step_at(g, piece, c, r, front, i).empty.contains(sq));
            }
        }
        if exists|i: int|
            0 <= i < offsets.len() && #[trigger] step_at(g, piece, c, r, offsets, i).enemy.contains(
                sq,
            ) {
            let i = choose|i: int|
                0 <= i < offsets.len() && #[trigger] step_at(
                    g,
                    piece,
                    c,
                    r,
                    offsets,
                    i,
                ).enemy.contains(sq);
            if i < last {
                assert(step_at(g, piece, c, r, front, i).enemy.contains(sq));
            }
        }
        if exists|i: int|
            0 <= i < offsets.len() && #[trigger] step_at(g, piece, c, r, offsets, i).union.contains(
                sq,
            ) {
            let i = choose|i: int|
                0 <= i < offsets.len() && #[trigger] step_at(
                    g,
                    piece,
                    c,
                    r,
                    offsets,
                    i,
                ).union.contains(sq);
            if i < last {
                assert(step_at(g, piece, c, r, front, i).union.contains(sq));
            }
        }
    }
}

/// What one step offers, square by square: only its target, and that in
/// the list that `landing` gives.
proof fn lemma_step_member(g: Grid, piece: Piece, c: int, r: int, sq: (usize, usize))
    ensures
        step_to(g, piece, c, r).empty.contains(sq) <==> in_grid(c, r) && sq == square(c, r)
            && free_for(g, piece, sq),
        step_to(g, piece, c, r).enemy.contains(sq) <==> in_grid(c, r) && sq == square(c, r)
            && foe_for(g, piece, sq) && piece.kind != PieceKind::King,
        step_to(g, piece, c, r).union.contains(sq) <==> in_grid(c, r) && sq == square(c, r)
            && union_at(g, sq) && piece.kind != PieceKind::King,
{
    let m = step_to(g, piece, c, r);
    if in_grid(c, r) {
        let t = square(c, r);
        assert(on_board(t));
        if m.empty.len() > 0 {
            assert(m.empty[0] == t);
        }
        if m.enemy.len() > 0 {
            assert(m.enemy[0] == t);
        }
        if m.union.len() > 0 {
            assert(m.union[0] == t);
        }
    }
}

/// Whether `to` is a knight's jump away from `from`: two squares along one
/// line and one along the other.
pub open spec fn knight_jump(from: (usize, usize), to: (usize, usize)) -> bool {
    let dx = to.0 - from.0;
    let dy = to.1 - from.1;
    ((dx == 1 || dx == -1) && (dy == 2 || dy == -2)) || ((dx == 2 || dx == -2) && (dy == 1 || dy
        == -1))
}

/// Whether `to` is next to `from`, diagonals included.
pub open spec fn king_step(from: (usize, usize), to: (usize, usize)) -> bool {
    let dx = to.0 - from.0;
    let dy = to.1 - from.1;
    -1 <= dx <= 1 && -1 <= dy <= 1 && !(dx == 0 && dy == 0)
}

/// What a knight is offered, square by square: the squares of the board a
/// knight's jump away, each in the list that fits its occupant, and none
/// that holds a lone piece of the knight's own colour.
pub proof fn lemma_knight_member(
    color: Color,
    has_moved: bool,
    pos: (usize, usize),
    g: Grid,
    sq: (usize, usize),
)
    requires
        on_board(pos),
    ensures
        ({
            let knight = Piece { kind: PieceKind::Knight, color, has_moved };
            let m = reach(knight, pos, g);
            &&& m.empty.contains(sq) <==> knight_jump(pos, sq) && on_board(sq) && g[sq] is Empty
            &&& m.enemy.contains(sq) <==> knight_jump(pos, sq) && foe_for(g, knight, sq)
            &&& m.union.contains(sq) <==> knight_jump(pos, sq) && union_at(g, sq)
        }),
{
    let knight = Piece { kind: PieceKind::Knight, color, has_moved };
    let c = pos.0 as int;
    let r = pos.1 as int;
    let jumps = knight_jumps();
    lemma_steps_member(g, knight, c, r, jumps, sq);
    assert(jumps.len() == 8);
    assert(jumps[0] == (2i8, 1i8) && jumps[1] == (1i8, 2i8) && jumps[2] == (1i8, -2i8) && jumps[3]
        == (2i8, -1i8));
    assert(jumps[4] == (-1i8, 2i8) && jumps[5] == (-2i8, 1i8) && jumps[6] == (-1i8, -2i8)
        && jumps[7] == (-2i8, -1i8));
    assert forall|i: int| 0 <= i < 8 implies (#[trigger] step_at(g, knight, c, r, jumps, i).empty.contains(
        sq,
    ) <==> sq.0 == c + jumps[i].0 && sq.1 == r + jumps[i].1 && on_board(sq) && g[sq] is Empty)
        && (step_at(g, knight, c, r, jumps, i).enemy.contains(sq) <==> sq.0 == c + jumps[i].0
        && sq.1 == r + jumps[i].1 && foe_for(g, knight, sq)) && (step_at(
        g,
        knight,
        c,
        r,
        jumps,
        i,
    ).union.contains(sq) <==> sq.0 == c + jumps[i].0 && sq.1 == r + jumps[i].1 && union_at(
        g,
        sq,
    )) by {
        lemma_step_member(g, knight, c + jumps[i].0, r + jumps[i].1, sq);
    }
    if knight_jump(pos, sq) && on_board(sq) {
        let dx = sq.0 - c;
        let dy = sq.1 - r;
        let i: int = if dx == 2 && dy == 1 {
            0
        } else if dx == 1 && dy == 2 {
            1
        } else if dx == 1 && dy == -2 {
            2
        } else if dx == 2 && dy == -1 {
            3
        } else if dx == -1 && dy == 2 {
            4
        } else if dx == -2 && dy == 1 {
            5
        } else if dx == -1 && dy == -2 {
            6
        } else {
            7
        };
        assert(sq.0 == c + jumps[i].0 && sq.1 == r + jumps[i].1);
        let hit = step_at(g, knight, c, r, jumps, i);
        assert(hit.empty.contains(sq) <==> g[sq] is Empty);
        assert(hit.enemy.contains(sq) <==> foe_for(g, knight, sq));
        assert(hit.union.contains(sq) <==> union_at(g, sq));
    }
}

/// What a king is offered, square by square: the squares of the board next
/// to it that are empty or hold a lone piece of the other colour, all of
/// them as `empty`.
pub proof fn lemma_king_member(
    color: Color,
    has_moved: bool,
    pos: (usize, usize),
    g: Grid,
    sq: (usize, usize),
)
    requires
        on_board(pos),
    ensures
        ({
            let king = Piece { kind: PieceKind::King, color, has_moved };
            reach(king, pos, g).empty.contains(sq) <==> king_step(pos, sq) && free_for(g, king, sq)
        }),
{
    let king = Piece { kind: PieceKind::King, color, has_moved };
    let c = pos.0 as int;
    let r = pos.1 as int;
    let dirs = queen_dirs();
    lemma_steps_member(g, king, c, r, dirs, sq);
    assert(dirs.len() == 8);
    assert(dirs[0] == (1i8, 1i8) && dirs[1] == (1i8, -1i8) && dirs[2] == (-1i8, 1i8) && dirs[3]
        == (-1i8, -1i8));
    assert(dirs[4] == (0i8, 1i8) && dirs[5] == (0i8, -1i8) && dirs[6] == (1i8, 0i8) && dirs[7]
        == (-1i8, 0i8));
    assert forall|i: int| 0 <= i < 8 implies (#[trigger] step_at(g, king, c, r, dirs, i).empty.contains(
        sq,
    ) <==> sq.0 == c + dirs[i].0 && sq.1 == r + dirs[i].1 && free_for(g, king, sq)) by {
        lemma_step_member(g, king, c + dirs[i].0, r + dirs[i].1, sq);
    }
    if king_step(pos, sq) && on_board(sq) {
        let dx = sq.0 - c;
        let dy = sq.1 - r;
        let i: int = if dx == 1 && dy == 1 {
            0
        } else if dx == 1 && dy == -1 {
            1
        } else if dx == -1 && dy == 1 {
            2
        } else if dx == -1 && dy == -1 {
            3
        } else if dx == 0 && dy == 1 {
            4
        } else if dx == 0 && dy == -1 {
            5
        } else if dx == 1 && dy == 0 {
            6
        } else {
            7
        };
        assert(sq.0 == c + dirs[i].0 && sq.1 == r + dirs[i].1);
        let hit = step_at(g, king, c, r, dirs, i);
        assert(hit.empty.contains(sq) <==> free_for(g, king, sq));
    }
}

/// Whether `x` occurs in `a + b` is whether it occurs in `a` or in `b`.
proof fn lemma_contains_join(a: Seq<(usize, usize)>, b: Seq<(usize, usize)>, x: (usize, usize))
    ensures
        (a + b).contains(x) <==> a.contains(x) || b.contains(x),
{
    if (a + b).contains(x) {
        let i = choose|i: int| 0 <= i < (a + b).len() && (a + b)[i] == x;
        if i < a.len() {
            assert(a[i] == x);
        } else {
            assert(b[i - a.len()] == x);
        }
    }
    if a.contains(x) {
        let i = choose|i: int| 0 <= i < a.len() && a[i] == x;
        assert((a + b)[i] == x);
    }
    if b.contains(x) {
        let i = choose|i: int| 0 <= i < b.len() && b[i] == x;
        assert((a + b)[i + a.len()] == x);
    }
}

/// The squares that share a column or a row with `pos`, `pos` itself left out.
pub open spec fn on_lines(pos: (usize, usize), sq: (usize, usize)) -> bool {
    on_board(sq) && sq != pos && (sq.0 == pos.0 || sq.1 == pos.1)
}

/// Whether `sq` lies ahead of `pos` along the column or row in direction
/// `(dc, dr)`, one of whose components is 0.
pub open spec fn ahead_on_line(pos: (usize, usize), dc: int, dr: int, sq: (usize, usize)) -> bool {
    on_board(sq) && if dc > 0 {
        sq.1 == pos.1 && sq.0 > pos.0
    } else if dc < 0 {
        sq.1 == pos.1 && sq.0 < pos.0
    } else if dr > 0 {
        sq.0 == pos.0 && sq.1 > pos.1
    } else {
        sq.0 == pos.0 && sq.1 < pos.1
    }
}

/// What a ray along a column or a row offers when every square ahead of it
/// is empty: all of them, and nothing to take.
proof fn lemma_open_line(
    g: Grid,
    color: Color,
    pos: (usize, usize),
    dc: int,
    dr: int,
    sq: (usize, usize),
)
    requires
        on_board(pos),
        is_direction(dc, dr),
        dc == 0 || dr == 0,
        forall|x: (usize, usize)| on_lines(pos, x) ==> g[x] is Empty,
    ensures
        ray(g, color, pos.0 as int, pos.1 as int, dc, dr).empty.contains(sq) <==> ahead_on_line(
            pos,
            dc,
            dr,
            sq,
        ),
        ray(g, color, pos.0 as int, pos.1 as int, dc, dr).enemy =~= Seq::empty(),
        ray(g, color, pos.0 as int, pos.1 as int, dc, dr).union =~= Seq::empty(),
{
    let c = pos.0 as int;
    let r = pos.1 as int;
    let n = ray_left(c, r, dc, dr) + 1;
    assert forall|k: int| 1 <= k <= n - 1 implies #[trigger] empty_at(g, c, r, dc, dr, k) by {
        assert(on_lines(pos, spot(c, r, dc, dr, k)));
    }
    assert(!on_ray(c, r, dc, dr, n));
    lemma_ray_shape(g, color, c, r, dc, dr, n);
    let m = ray(g, color, c, r, dc, dr);
    assert(m.empty.len() == n - 1);
    if m.empty.contains(sq) {
        let i = choose|i: int| 0 <= i < m.empty.len() && m.empty[i] == sq;
        assert(sq == spot(c, r, dc, dr, i + 1));
        assert(empty_at(g, c, r, dc, dr, i + 1));
        assert(on_ray(c, r, dc, dr, i + 1));
        assert(ahead_on_line(pos, dc, dr, sq));
    }
    if ahead_on_line(pos, dc, dr, sq) {
        let k = if dc > 0 {
            sq.0 - c
        } else if dc < 0 {
            c - sq.0
        } else if dr > 0 {
            sq.1 - r
        } else {
            r - sq.1
        };
        assert(1 <= k <= n - 1);
        assert(sq == spot(c, r, dc, dr, k));
        assert(m.empty[k - 1] == sq);
        assert(m.empty.contains(sq));
    }
}

/// A rook whose column and row hold no other piece is offered every square
/// of that column and that row but its own, all as `empty`, and nothing else.
pub proof fn lemma_rook_on_open_lines(color: Color, has_moved: bool, pos: (usize, usize), g: Grid)
    requires
        on_board(pos),
        forall|sq: (usize, usize)| on_lines(pos, sq) ==> g[sq] is Empty,
    ensures
        ({
            let rook = Piece { kind: PieceKind::Rook, color, has_moved };
            let m = reach(rook, pos, g);
            &&& forall|sq: (usize, usize)| m.empty.contains(sq) <==> on_lines(pos, sq)
            &&& m.enemy =~= Seq::empty()
            &&& m.union =~= Seq::empty()
        }),
{
    let rook = Piece { kind: PieceKind::Rook, color, has_moved };
    let c = pos.0 as int;
    let r = pos.1 as int;
    let up = ray(g, color, c, r, 0, 1);
    let down = ray(g, color, c, r, 0, -1);
    let right = ray(g, color, c, r, 1, 0);
    let left = ray(g, color, c, r, -1, 0);
    lemma_open_line(g, color, pos, 0, 1, pos);
    lemma_open_line(g, color, pos, 0, -1, pos);
    lemma_open_line(g, color, pos, 1, 0, pos);
    lemma_open_line(g, color, pos, -1, 0, pos);
    let d = rook_dirs();
    let d3 = d.drop_last();
    let d2 = d3.drop_last();
    let d1 = d2.drop_last();
    let d0 = d1.drop_last();
    assert(d.len() == 4 && d3.len() == 3 && d2.len() == 2 && d1.len() == 1 && d0.len() == 0);
    assert(d1.last() == (0i8, 1i8) && d2.last() == (0i8, -1i8));
    assert(d3.last() == (1i8, 0i8) && d.last() == (-1i8, 0i8));
    assert(slides(g, color, c, r, d0) == Reach::nothing());
    assert(slides(g, color, c, r, d1) == Reach::nothing().followed_by(up));
    assert(slides(g, color, c, r, d2) == slides(g, color, c, r, d1).followed_by(down));
    assert(slides(g, color, c, r, d3) == slides(g, color, c, r, d2).followed_by(right));
    assert(slides(g, color, c, r, d) == slides(g, color, c, r, d3).followed_by(left));
    let m = reach(rook, pos, g);
    assert(m == slides(g, color, c, r, d));
    assert(m.empty =~= ((up.empty + down.empty) + right.empty) + left.empty);
    assert(m.enemy =~= Seq::empty());
    assert(m.union =~= Seq::empty());
    assert forall|sq: (usize, usize)| m.empty.contains(sq) <==> on_lines(pos, sq) by {
        lemma_contains_join(up.empty, down.empty, sq);
        lemma_contains_join(up.empty + down.empty, right.empty, sq);
        lemma_contains_join((up.empty + down.empty) + right.empty, left.empty, sq);
        lemma_open_line(g, color, pos, 0, 1, sq);
        lemma_open_line(g, color, pos, 0, -1, sq);
        lemma_open_line(g, color, pos, 1, 0, sq);
        lemma_open_line(g, color, pos, -1, 0, sq);
        assert(on_lines(pos, sq) <==> ahead_on_line(pos, 0, 1, sq) || ahead_on_line(pos, 0, -1, sq)
            || ahead_on_line(pos, 1, 0, sq) || ahead_on_line(pos, -1, 0, sq));
    }
}

} // verus!
