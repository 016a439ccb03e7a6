//! What construction and parsing report when they fail.

use crate::tree::Span;
use vstd::prelude::*;

verus! {

/// One input character that no unit rule derives, with the span it stands at.
#[derive(Clone, Copy, Debug, PartialEq, Eq, Structural)]
pub struct Diagnostic {
    pub character: char,
    pub span: Span,
}

impl Diagnostic {
    pub fn new(c: char, span: Span) -> (diagnostic: Diagnostic)
        ensures
            diagnostic == (Diagnostic { character: c, span }),
    {
        Diagnostic { character: c, span }
    }

    pub fn character(&self) -> (c: char)
        ensures
            c == self.character,
    {
        self.character
    }

    pub fn span(&self) -> (span: Span)
        ensures
            span == self.span,
    {
        self.span
    }
}

/// Why a grammar was refused.
#[derive(Clone, Copy, Debug, PartialEq, Eq, Structural)]
pub enum GrammarError {
    /// The start symbol is not a declared non-terminal.
    UndeclaredStart,
    /// A symbol is declared both as a terminal and as a non-terminal.
    DeclaredTwice,
    /// The left side of a rule is not a declared non-terminal.
    UndeclaredLeft,
    /// A symbol on the right side of a rule is declared neither as a terminal
    /// nor as a non-terminal.
    UndeclaredRight,
    /// The right side of a unit rule is not a terminal.
    UnitNotTerminal,
}

} // verus!
