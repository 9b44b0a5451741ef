//! Syntax errors and the positions they point at.

use vstd::prelude::*;
use crate::text::texts;

verus! {

/// A position in the input: the number of characters before it, and the line and column that
/// follow from it, both counted from 1.
#[derive(Clone, Copy, Debug, PartialEq, Eq)]
pub struct Position {
    pub offset: usize,
    pub line: usize,
    pub column: usize,
}

/// The mathematical value of a [`Position`].
pub struct Place {
    pub offset: nat,
    pub line: nat,
    pub column: nat,
}

impl View for Position {
    type V = Place;

    open spec fn view(&self) -> Place {
        Place { offset: self.offset as nat, line: self.line as nat, column: self.column as nat }
    }
}

/// The line of the position after `offset` characters: one more than the number of line feeds
/// before it.
pub open spec fn line_of(input: Seq<char>, offset: nat) -> nat
    decreases offset,
{
    if offset == 0 {
        1
    } else if input[offset - 1] == '\n' {
        line_of(input, (offset - 1) as nat) + 1
    } else {
        line_of(input, (offset - 1) as nat)
    }
}

/// The column of the position after `offset` characters: one more than the number of
/// characters between the last line feed before it and the position.
pub open spec fn column_of(input: Seq<char>, offset: nat) -> nat
    decreases offset,
{
    if offset == 0 {
        1
    } else if input[offset - 1] == '\n' {
        1
    } else {
        column_of(input, (offset - 1) as nat) + 1
    }
}

/// The position after `offset` characters of the input.
pub open spec fn place_at(input: Seq<char>, offset: nat) -> Place {
    Place { offset, line: line_of(input, offset), column: column_of(input, offset) }
}

/// Line and column lie within one more than the offset.
pub proof fn lemma_place_bounds(input: Seq<char>, offset: nat)
    ensures
        1 <= line_of(input, offset) <= offset + 1,
        1 <= column_of(input, offset) <= offset + 1,
    decreases offset,
{
    if offset > 0 {
        lemma_place_bounds(input, (offset - 1) as nat);
    }
}

impl Position {
    /// The position after `offset` characters of the input.
    pub(crate) fn locate(input: &Vec<char>, offset: usize) -> (position: Position)
        requires
            offset <= input.len() < usize::MAX,
        ensures
            position@ == place_at(input@, offset as nat),
    {
        let mut line: usize = 1;
        let mut column: usize = 1;
        let mut i: usize = 0;
        while i < offset
            invariant
                i <= offset <= input.len() < usize::MAX,
                line == line_of(input@, i as nat),
                column == column_of(input@, i as nat),
            decreases offset - i,
        {
            proof {
                lemma_place_bounds(input@, i as nat);
            }
            if input[i] == '\n' {
                line += 1;
                column = 1;
            } else {
                column += 1;
            }
            i += 1;
        }
        Position { offset, line, column }
    }
}

/// Why the input is no sentence of the grammar: the furthest position at which an attempt to
/// match failed, and the names of what was tried there.
#[derive(Clone, Debug, PartialEq, Eq)]
pub struct SyntaxError {
    pub position: Position,
    pub expected: Vec<String>,
}

/// The mathematical value of a [`SyntaxError`].
pub struct Failure {
    pub place: Place,
    pub expected: Seq<Seq<char>>,
}

impl View for SyntaxError {
    type V = Failure;

    open spec fn view(&self) -> Failure {
        Failure { place: self.position@, expected: texts(self.expected@) }
    }
}

} // verus!
