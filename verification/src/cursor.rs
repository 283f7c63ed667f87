//! The mathematical model of the source cursor.
//!
//! The source is an ordered sequence of lines; a cursor position is a
//! (line, column) pair.  A position is kept *canonical*: it either denotes a
//! character of the source, or it is the unique exhausted position one past
//! the last line.  Advancing crosses line boundaries transparently, so empty
//! lines are never denoted.  `rem` counts the characters from a position to
//! the end of the source and is the termination measure of every scan.

use vstd::prelude::*;

use crate::token::Pos;

verus! {

/// The cursor has consumed the whole source.
pub open spec fn at_end(lines: Seq<Seq<char>>, line: int) -> bool {
    line >= lines.len()
}

/// The position denotes a character of the source.
pub open spec fn valid_at(lines: Seq<Seq<char>>, line: int, col: int) -> bool {
    0 <= line < lines.len() && 0 <= col < lines[line].len()
}

/// A canonical position: a character of the source, or the unique exhausted
/// position.
pub open spec fn canon(lines: Seq<Seq<char>>, line: int, col: int) -> bool {
    valid_at(lines, line, col) || (line == lines.len() && col == 0)
}

/// The character denoted by a valid position.
pub open spec fn char_at(lines: Seq<Seq<char>>, line: int, col: int) -> char {
    lines[line][col]
}

/// The number of characters from the given position to the end of the source.
pub open spec fn rem(lines: Seq<Seq<char>>, line: int, col: int) -> int
    decreases lines.len() - line,
{
    if line < 0 || line >= lines.len() {
        0
    } else {
        (lines[line].len() - col) + rem(lines, line + 1, 0)
    }
}

/// The canonical position at or after (line, col): skips the ends of lines
/// (and any empty lines) until a character or the exhausted position is
/// reached.
pub open spec fn norm(lines: Seq<Seq<char>>, line: int, col: int) -> (int, int)
    decreases lines.len() - line,
{
    if line < 0 {
        (0, 0)
    } else if line >= lines.len() {
        (lines.len() as int, 0)
    } else if col < lines[line].len() {
        (line, col)
    } else {
        norm(lines, line + 1, 0)
    }
}

/// The canonical position one character after a valid position.
pub open spec fn adv(lines: Seq<Seq<char>>, line: int, col: int) -> (int, int) {
    norm(lines, line, col + 1)
}

/// The character at a position, or `None` at the exhausted position.
pub open spec fn current_at(lines: Seq<Seq<char>>, line: int, col: int) -> Option<char> {
    if line < lines.len() {
        Some(char_at(lines, line, col))
    } else {
        None
    }
}

/// The character one position ahead of a valid position, crossing line
/// boundaries, or `None` if that position would be past the end.
pub open spec fn peek_at(lines: Seq<Seq<char>>, line: int, col: int) -> Option<char> {
    let (l2, c2) = adv(lines, line, col);
    current_at(lines, l2, c2)
}

/// The error-report position for a canonical position.
pub open spec fn pos_of(line: int, col: int) -> Pos {
    Pos { line: line as usize, col: col as usize }
}

/// The characters of the source from the given position to the end, in
/// order; line boundaries contribute no characters.
pub open spec fn tail_from(lines: Seq<Seq<char>>, line: int, col: int) -> Seq<char>
    decreases lines.len() - line,
{
    if line < 0 || line >= lines.len() {
        Seq::empty()
    } else {
        lines[line].skip(col) + tail_from(lines, line + 1, 0)
    }
}

/// Normalizing does not change the remaining characters.
pub proof fn lemma_tail_norm(lines: Seq<Seq<char>>, line: int, col: int)
    requires
        0 <= line,
        line < lines.len() ==> 0 <= col <= lines[line].len(),
    ensures
        tail_from(lines, norm(lines, line, col).0, norm(lines, line, col).1) == tail_from(
            lines,
            line,
            col,
        ),
    decreases lines.len() - line,
{
    if line >= lines.len() {
    } else if col < lines[line].len() {
    } else {
        lemma_tail_norm(lines, line + 1, 0);
        assert(lines[line].skip(col) =~= Seq::<char>::empty());
        assert(lines[line].skip(col) + tail_from(lines, line + 1, 0) =~= tail_from(
            lines,
            line + 1,
            0,
        ));
    }
}

/// From a valid position, the remaining characters are the current one
/// followed by the characters after the advanced position.
pub proof fn lemma_tail_step(lines: Seq<Seq<char>>, line: int, col: int)
    requires
        valid_at(lines, line, col),
    ensures
        tail_from(lines, line, col) == seq![char_at(lines, line, col)] + tail_from(
            lines,
            adv(lines, line, col).0,
            adv(lines, line, col).1,
        ),
{
    let s = lines[line];
    lemma_tail_norm(lines, line, col + 1);
    assert(s.skip(col) =~= seq![s[col]] + s.skip(col + 1));
    assert(tail_from(lines, line, col + 1) == s.skip(col + 1) + tail_from(lines, line + 1, 0));
    assert((seq![s[col]] + s.skip(col + 1)) + tail_from(lines, line + 1, 0) =~= seq![s[col]] + (
    s.skip(col + 1) + tail_from(lines, line + 1, 0)));
}

/// `rem` is non-negative wherever the column does not exceed its line.
pub proof fn lemma_rem_nonneg(lines: Seq<Seq<char>>, line: int, col: int)
    requires
        0 <= line,
        line < lines.len() ==> col <= lines[line].len(),
    ensures
        rem(lines, line, col) >= 0,
    decreases lines.len() - line,
{
    if line < lines.len() {
        lemma_rem_nonneg(lines, line + 1, 0);
    }
}

/// Normalizing reaches a canonical position and consumes no characters.
pub proof fn lemma_norm(lines: Seq<Seq<char>>, line: int, col: int)
    requires
        0 <= line,
        line < lines.len() ==> 0 <= col <= lines[line].len(),
    ensures
        canon(lines, norm(lines, line, col).0, norm(lines, line, col).1),
        rem(lines, norm(lines, line, col).0, norm(lines, line, col).1) == rem(lines, line, col),
        rem(lines, line, col) >= 0,
        line <= lines.len() ==> norm(lines, line, col).0 >= line,
    decreases lines.len() - line,
{
    if line >= lines.len() {
    } else if col < lines[line].len() {
        lemma_rem_nonneg(lines, line, col);
    } else {
        lemma_norm(lines, line + 1, 0);
    }
}

/// Advancing from a valid position consumes exactly one character.
pub proof fn lemma_adv(lines: Seq<Seq<char>>, line: int, col: int)
    requires
        valid_at(lines, line, col),
    ensures
        canon(lines, adv(lines, line, col).0, adv(lines, line, col).1),
        rem(lines, adv(lines, line, col).0, adv(lines, line, col).1) == rem(lines, line, col) - 1,
        rem(lines, line, col) >= 1,
        adv(lines, line, col).0 >= line,
{
    lemma_norm(lines, line, col + 1);
    assert(rem(lines, line, col) == (lines[line].len() - col) + rem(lines, line + 1, 0));
    assert(rem(lines, line, col + 1) == (lines[line].len() - col - 1) + rem(lines, line + 1, 0));
}

} // verus!
