//! Positions, ranges and edits in a text document, as the language server
//! protocol states them: a position is a zero-based line and a character
//! offset within that line.
use vstd::prelude::*;

verus! {

/// A zero-based line and character offset in a text document.
#[derive(Clone, Copy, Debug, PartialEq, Eq, Structural, Hash)]
pub struct Position {
    pub line: u32,
    pub character: u32,
}

impl Position {
    pub fn new(line: u32, character: u32) -> (r: Self)
        ensures
            r == (Position { line, character }),
    {
        Position { line, character }
    }
}

/// A range between two positions, `end` exclusive.
#[derive(Clone, Copy, Debug, PartialEq, Eq, Structural, Hash)]
pub struct Range {
    pub start: Position,
    pub end: Position,
}

impl Range {
    pub fn new(start: Position, end: Position) -> (r: Self)
        ensures
            r == (Range { start, end }),
    {
        Range { start, end }
    }
}

/// An edit of a text document: the text that replaces `range`, or the whole
/// document when there is no range. `range_length` is deprecated and unused.
#[derive(Clone, Debug)]
pub struct TextDocumentContentChangeEvent {
    pub range: Option<Range>,
    pub range_length: Option<u32>,
    pub text: String,
}

} // verus!
