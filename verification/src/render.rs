//! The picture of a board as text.

use vstd::prelude::*;
use vstd::string::StrSliceExecFns;
use crate::board::{on_board, Board, Grid, Tile};
use crate::notation::string_of;
use crate::piece::PieceKind;

verus! {

/// The letter that stands for a kind of piece.
pub open spec fn kind_letter(kind: PieceKind) -> char {
    match kind {
        PieceKind::Pawn => 'P',
        PieceKind::Knight => 'N',
        PieceKind::Bishop => 'B',
        PieceKind::Rook => 'R',
        PieceKind::Queen => 'Q',
        PieceKind::King => 'K',
    }
}

/// The four characters that show one tile: an underscore for an empty
/// square, the letter of a lone piece, and for a union the letter of its
/// white piece, an `x`, and the letter of its black piece.
pub open spec fn cell(tile: Tile) -> Seq<char> {
    match tile {
        Tile::Empty => seq![' ', '_', ' ', ' '],
        Tile::Single(piece) => seq![' ', kind_letter(piece.kind), ' ', ' '],
        Tile::Union { white, black } => seq![
            kind_letter(white.kind),
            'x',
            kind_letter(black.kind),
            ' ',
        ],
    }
}

/// The cells of the first `n` columns of row `row`, from column 0 on.
pub open spec fn cells(g: Grid, row: int, n: int) -> Seq<char>
    decreases n,
{
    if n <= 0 {
        Seq::empty()
    } else {
        cells(g, row, n - 1) + cell(g[((n - 1) as usize, row as usize)])
    }
}

/// One line of the picture: the number of the row, counted from 1, a
/// space, the eight cells of the row, and a line break.
pub open spec fn line(g: Grid, row: int) -> Seq<char> {
    seq![(row + '1' as u8) as char, ' '] + cells(g, row, 8) + seq!['\n']
}

/// The first `n` lines of the picture: row 7 comes first.
pub open spec fn lines(g: Grid, n: int) -> Seq<char>
    decreases n,
{
    if n <= 0 {
        Seq::empty()
    } else {
        lines(g, n - 1) + line(g, 8 - n)
    }
}

/// The last line of the picture: the letters of the columns.
pub open spec fn footer() -> Seq<char> {
    "   A   B   C   D   E   F   G   H\n"@
}

/// The picture of a board: its eight rows from the top down, then the
/// letters of the columns.
pub open spec fn picture(g: Grid) -> Seq<char> {
    lines(g, 8) + footer()
}

/// The letter that stands for a kind of piece.
fn letter_of(kind: PieceKind) -> (c: char)
    ensures
        c == kind_letter(kind),
{
    match kind {
        PieceKind::Pawn => 'P',
        PieceKind::Knight => 'N',
        PieceKind::Bishop => 'B',
        PieceKind::Rook => 'R',
        PieceKind::Queen => 'Q',
        PieceKind::King => 'K',
    }
}

/// Appends the four characters that show `tile`.
fn push_cell(out: &mut Vec<char>, tile: Tile)
    ensures
        final(out)@ == old(out)@ + cell(tile),
{
    match tile {
        Tile::Empty => {
            out.push(' ');
            out.push('_');
            out.push(' ');
            out.push(' ');
        },
        Tile::Single(piece) => {
            out.push(' ');
            out.push(letter_of(piece.kind));
            out.push(' ');
            out.push(' ');
        },
        Tile::Union { white, black } => {
            out.push(letter_of(white.kind));
            out.push('x');
            out.push(letter_of(black.kind));
            out.push(' ');
        },
    }
    assert(out@ =~= old(out)@ + cell(tile));
}

/// Appends the characters of `text`.
fn push_text(out: &mut Vec<char>, text: &str)
    ensures
        final(out)@ == old(out)@ + text@,
{
    let n: usize = text.unicode_len();
    let mut i: usize = 0;
    while i < n
        invariant
            n == text@.len(),
            i <= n,
            out@ == old(out)@ + text@.take(i as int),
        decreases n - i,
    {
        out.push(text.get_char(i));
        assert(out@ =~= old(out)@ + text@.take(i + 1));
        i += 1;
    }
    assert(text@.take(n as int) =~= text@);
}

impl Board {
    /// The picture of the board as text, ready to be printed.
    pub fn render(&self) -> (text: String)
        ensures
            text@ == picture(self@),
    {
        let mut out: Vec<char> = Vec::new();
        let mut done: usize = 0;
        while done < 8
            invariant
                done <= 8,
                out@ == lines(self@, done as int),
            decreases 8 - done,
        {
            let row: usize = 7 - done;
            let ghost above = out@;
            out.push((row as u8 + '1' as u8) as char);
            out.push(' ');
            let mut col: usize = 0;
            let ghost head = out@;
            while col < 8
                invariant
                    col <= 8,
                    row < 8,
                    out@ == head + cells(self@, row as int, col as int),
                decreases 8 - col,
            {
                assert(on_board((col, row)));
                push_cell(&mut out, self.tile((col, row)));
                col += 1;
                assert(out@ =~= head + cells(self@, row as int, col as int));
            }
            out.push('\n');
            done += 1;
            assert(out@ =~= above + line(self@, row as int));
        }
        push_text(&mut out, "   A   B   C   D   E   F   G   H\n");
        string_of(&out)
    }
}

} // verus!
