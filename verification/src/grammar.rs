//! The queries that the chart parser puts to a grammar.

use crate::set::SymbolSet;
use crate::symbol::Symbol;
use vstd::prelude::*;

verus! {

/// `found` answers a query whose result is `symbols`: it holds them in their
/// order, and `None` stands for no symbol at all.
pub open spec fn answers(found: Option<SymbolSet>, symbols: Seq<Symbol>) -> bool {
    match found {
        Some(set) => set@ == symbols && symbols.len() > 0,
        None => symbols.len() == 0,
    }
}

/// A grammar in Chomsky normal form, as far as parsing needs it. The spec
/// functions say what the grammar is; each query returns what they say.
pub trait Grammar {
    /// The symbol that a whole input must derive from.
    spec fn start(&self) -> Symbol;

    /// The declared terminals.
    spec fn terminals(&self) -> Set<Symbol>;

    /// The declared non-terminals.
    spec fn non_terminals(&self) -> Set<Symbol>;

    /// The symbols that stand first on the right side of a binary rule of `symbol`.
    spec fn first_symbols(&self, symbol: Symbol) -> Seq<Symbol>;

    /// The symbols that stand second on the right side of a binary rule whose
    /// first symbol there is `base`.
    spec fn successors_after(&self, base: Symbol) -> Seq<Symbol>;

    /// The left sides of the binary rules whose right side is `base suffix`.
    spec fn binary_parents(&self, base: Symbol, suffix: Symbol) -> Seq<Symbol>;

    /// The left sides of the unit rules whose right side is `terminal`.
    spec fn unit_parents(&self, terminal: Symbol) -> Seq<Symbol>;

    fn start_symbol(&self) -> (symbol: Symbol)
        ensures
            symbol == self.start(),
    ;

    fn exist(&self, symbol: Symbol) -> (found: bool)
        ensures
            found == (self.non_terminals().contains(symbol) || self.terminals().contains(symbol)),
    ;

    fn first(&self, symbol: Symbol) -> (found: Option<SymbolSet>)
        ensures
            answers(found, self.first_symbols(symbol)),
    ;

    fn follow(&self, symbol: Symbol) -> (found: Option<SymbolSet>)
        ensures
            answers(found, self.successors_after(symbol)),
    ;

    fn derive(&self, base: Symbol, suffix: Symbol) -> (found: Option<SymbolSet>)
        ensures
            answers(found, self.binary_parents(base, suffix)),
    ;

    fn derive_single(&self, base: Symbol) -> (found: Option<SymbolSet>)
        ensures
            answers(found, self.unit_parents(base)),
    ;

    fn is_terminal(&self, input: Symbol) -> (found: bool)
        ensures
            found == self.terminals().contains(input),
    ;

    fn is_non_terminal(&self, input: Symbol) -> (found: bool)
        ensures
            found == self.non_terminals().contains(input),
    ;
}

} // verus!
