//! Move notation: squares written as a column letter and a row digit, and
//! lines of input made of them.

use vstd::prelude::*;
use vstd::string::StrSliceExecFns;
use crate::board::on_board;

verus! {

/// What a line of input asks for.
#[derive(Debug, PartialEq, Eq)]
pub enum Request {
    /// The line is not in move notation.
    Invalid,
    /// One square: show what its occupant can reach.
    Show((usize, usize)),
    /// Two squares or more: move from the first along the others.
    Play { start: (usize, usize), destinations: Vec<(usize, usize)> },
}

/// The answer of the regex crate when `pattern` is compiled and searched for
/// in `text`: `None` where the pattern is rejected, otherwise whether `text`
/// holds a match.
pub uninterp spec fn regex_search(pattern: Seq<char>, text: Seq<char>) -> Option<bool>;

/// Calls `regex::Regex::new` on `pattern` and, where that succeeds,
/// `Regex::is_match` on `text`. The contract only names the answer: it is
/// the same for the same pattern and text, and nothing more is claimed of it.
#[verifier::external_body]
fn search(pattern: &str, text: &str) -> (found: Option<bool>)
    ensures
        found == regex_search(pattern@, text@),
{
    match regex::Regex::new(pattern) {
        Ok(compiled) => Some(compiled.is_match(text)),
        Err(_) => None,
    }
}

/// Calls `String::from_iter` on `chars`: the string holds exactly those
/// characters, in order.
#[verifier::external_body]
pub(crate) fn string_of(chars: &Vec<char>) -> (text: String)
    ensures
        text@ == chars@,
{
    String::from_iter(chars)
}

/// The pattern of move notation: one or more squares, each a column letter
/// from `a` to `h` in either case and a row digit from `1` to `8`.
pub open spec fn move_pattern() -> Seq<char> {
    "^[a-hA-H][1-8]([a-hA-H][1-8])*$"@
}

/// Whether `c` names a column: a letter from `a` to `h`, in either case.
pub open spec fn is_file(c: char) -> bool {
    ('a' <= c && c <= 'h') || ('A' <= c && c <= 'H')
}

/// Whether `c` names a row: a digit from `1` to `8`.
pub open spec fn is_rank(c: char) -> bool {
    '1' <= c && c <= '8'
}

/// The lower-case form of an ASCII capital; any other character is itself.
pub open spec fn lower(c: char) -> char {
    if 'A' <= c && c <= 'Z' {
        ((c as u8) + 32) as char
    } else {
        c
    }
}

/// The square that a lower-case column letter and a row digit name.
pub open spec fn coords(letter: char, number: char) -> (usize, usize) {
    ((letter as int - 'a' as int) as usize, (number as int - '1' as int) as usize)
}

/// Whether `text` is written as a row of squares: a column letter at every
/// even place, a row digit at every odd place, and at least one square.
pub open spec fn well_written(text: Seq<char>) -> bool {
    &&& text.len() >= 2
    &&& text.len() % 2 == 0
    &&& forall|i: int|
        0 <= i < text.len() ==> if i % 2 == 0 {
            is_file(#[trigger] text[i])
        } else {
            is_rank(text[i])
        }
}

/// The `k`-th square that `text` names.
pub open spec fn square_in(text: Seq<char>, k: int) -> (usize, usize) {
    coords(lower(text[2 * k]), text[2 * k + 1])
}

/// The squares that `text` names, in order.
pub open spec fn squares_of(text: Seq<char>) -> Seq<(usize, usize)> {
    Seq::new(text.len() / 2, |k: int| square_in(text, k))
}

/// The name of square `sq`: the letter of its column and the digit of its
/// row, such as `a1` for column 0, row 0.
pub open spec fn square_name(sq: (usize, usize)) -> Seq<char> {
    seq![(sq.0 + 'a' as u8) as char, (sq.1 + '1' as u8) as char]
}

/// The lower-case form of an ASCII capital; any other character is itself.
pub fn to_lower(c: char) -> (l: char)
    ensures
        l == lower(c),
{
    if 'A' <= c && c <= 'Z' {
        (c as u8 + 32) as char
    } else {
        c
    }
}

/// The square named by a lower-case column letter and a row digit.
pub fn get_coords(letter: char, number: char) -> (pos: (usize, usize))
    requires
        'a' <= letter && letter <= 'h',
        is_rank(number),
    ensures
        pos == coords(letter, number),
        on_board(pos),
{
    let col: usize = (letter as u8 - 'a' as u8) as usize;
    let row: usize = (number as u8 - '1' as u8) as usize;
    (col, row)
}

/// The names of the squares in `pos`, such as `a1` for column 0, row 0.
pub fn get_notation(pos: Vec<(usize, usize)>) -> (names: Vec<String>)
    requires
        forall|k: int| 0 <= k < pos@.len() ==> on_board(#[trigger] pos@[k]),
    ensures
        names@.len() == pos@.len(),
        forall|k: int| 0 <= k < pos@.len() ==> (#[trigger] names@[k])@ == square_name(pos@[k]),
{
    let mut names: Vec<String> = Vec::new();
    let mut i: usize = 0;
    while i < pos.len()
        invariant
            i <= pos@.len(),
            names@.len() == i,
            forall|k: int| 0 <= k < pos@.len() ==> on_board(#[trigger] pos@[k]),
            forall|k: int| 0 <= k < i ==> (#[trigger] names@[k])@ == square_name(pos@[k]),
        decreases pos@.len() - i,
    {
        let sq: (usize, usize) = pos[i];
        assert(on_board(pos@[i as int]));
        let letter: char = (sq.0 as u8 + 'a' as u8) as char;
        let number: char = (sq.1 as u8 + '1' as u8) as char;
        let mut pair: Vec<char> = Vec::new();
        pair.push(letter);
        pair.push(number);
        assert(pair@ =~= square_name(sq));
        names.push(string_of(&pair));
        i += 1;
    }
    names
}

/// Reads a line of input, given the verdict of the pattern search on it.
/// The line is a request only where the search found a match and the line
/// is written as a row of squares: one square asks to show, more ask to play.
pub fn interpret(input: &str, verdict: Option<bool>) -> (request: Request)
    ensures
        !(verdict == Some(true) && well_written(input@)) ==> request is Invalid,
        verdict == Some(true) && well_written(input@) && input@.len() == 2 ==> request
            == Request::Show(square_in(input@, 0)),
        verdict == Some(true) && well_written(input@) && input@.len() > 2 ==> (request matches Request::Play {
            start,
            destinations,
        } && start == square_in(input@, 0) && destinations@ == squares_of(input@).skip(1)),
        request matches Request::Show(pos) ==> on_board(pos),
        request matches Request::Play { start, destinations } ==> on_board(start)
            && destinations@.len() >= 1 && forall|k: int|
            0 <= k < destinations@.len() ==> on_board(#[trigger] destinations@[k]),
{
    match verdict {
        Some(true) => {},
        _ => {
            return Request::Invalid;
        },
    }
    let n: usize = input.unicode_len();
    if n < 2 || n % 2 != 0 {
        return Request::Invalid;
    }
    let mut start: (usize, usize) = (0, 0);
    let mut destinations: Vec<(usize, usize)> = Vec::new();
    let mut i: usize = 0;
    while i < n
        invariant
            n == input@.len(),
            n % 2 == 0,
            i % 2 == 0,
            i <= n,
            forall|j: int|
                0 <= j < i ==> if j % 2 == 0 {
                    is_file(#[trigger] input@[j])
                } else {
                    is_rank(input@[j])
                },
            i >= 2 ==> start == square_in(input@, 0) && on_board(start),
            i >= 2 ==> destinations@.len() == i / 2 - 1,
            i < 2 ==> destinations@.len() == 0,
            forall|k: int|
                0 <= k < destinations@.len() ==> #[trigger] destinations@[k] == square_in(
                    input@,
                    k + 1,
                ) && on_board(destinations@[k]),
        decreases n - i,
    {
        let letter: char = input.get_char(i);
        let number: char = input.get_char(i + 1);
        let file_ok: bool = ('a' <= letter && letter <= 'h') || ('A' <= letter && letter <= 'H');
        let rank_ok: bool = '1' <= number && number <= '8';
        if !(file_ok && rank_ok) {
            return Request::Invalid;
        }
        let pos: (usize, usize) = get_coords(to_lower(letter), number);
        assert(pos == square_in(input@, i as int / 2));
        if i == 0 {
            start = pos;
        } else {
            destinations.push(pos);
        }
        i += 2;
    }
    if n == 2 {
        Request::Show(start)
    } else {
        assert(destinations@ =~= squares_of(input@).skip(1));
        Request::Play { start, destinations }
    }
}

/// Reads a line of input: it is searched for the pattern of move notation,
/// and then read as `interpret` reads it.
pub fn parse(input: &str) -> (request: Request)
    ensures
        !(regex_search(move_pattern(), input@) == Some(true) && well_written(input@))
            ==> request is Invalid,
        regex_search(move_pattern(), input@) == Some(true) && well_written(input@) && input@.len()
            == 2 ==> request == Request::Show(square_in(input@, 0)),
        regex_search(move_pattern(), input@) == Some(true) && well_written(input@) && input@.len()
            > 2 ==> (request matches Request::Play { start, destinations } && start == square_in(
            input@,
            0,
        ) && destinations@ == squares_of(input@).skip(1)),
        request matches Request::Show(pos) ==> on_board(pos),
        request matches Request::Play { start, destinations } ==> on_board(start)
            && destinations@.len() >= 1 && forall|k: int|
            0 <= k < destinations@.len() ==> on_board(#[trigger] destinations@[k]),
{
    let verdict = search("^[a-hA-H][1-8]([a-hA-H][1-8])*$", input);
    interpret(input, verdict)
}

} // verus!
