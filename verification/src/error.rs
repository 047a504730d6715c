//! The syntax error.

use crate::pair::Rule;
use vstd::prelude::*;

verus! {

/// Where a text stops being BML, and what the grammar expects there.
pub struct Fault {
    /// The number of the line, counted from zero.
    pub line: int,
    /// The number of the character in its line, counted from zero.
    pub column: int,
    /// The rule that no text at this place matches.
    pub expected: Rule,
}

/// BML parser error: the first place at which the text does not match the grammar.
#[derive(Debug, Clone, Copy, PartialEq, Eq, Structural)]
pub struct BmlError {
    line: usize,
    column: usize,
    expected: Rule,
}

impl View for BmlError {
    type V = Fault;

    closed spec fn view(&self) -> Fault {
        Fault { line: self.line as int, column: self.column as int, expected: self.expected }
    }
}

impl BmlError {
    /// The error for the line `line` and the column `column`, where `expected` does
    /// not match.
    pub fn new(line: usize, column: usize, expected: Rule) -> (error: BmlError)
        ensures
            error@ == (Fault { line: line as int, column: column as int, expected }),
    {
        BmlError { line, column, expected }
    }

    /// The number of the offending line, counted from zero.
    pub fn line(&self) -> (line: usize)
        ensures
            line == self@.line,
    {
        self.line
    }

    /// The number of the offending character in its line, counted from zero.
    pub fn column(&self) -> (column: usize)
        ensures
            column == self@.column,
    {
        self.column
    }

    /// The rule that the text does not match at that place.
    pub fn expected(&self) -> (expected: Rule)
        ensures
            expected == self@.expected,
    {
        self.expected
    }
}

} // verus!
