pub mod chart;
pub mod cnf;
pub mod derivation;
pub mod error;
pub mod grammar;
pub mod parser;
pub mod relations;
pub mod set;
pub mod symbol;
pub mod tree;

pub use cnf::{GrammarView, Rule, RuleRight, Rules, TerminalRule, TerminalRules, CNF};
pub use error::{Diagnostic, GrammarError};
pub use grammar::Grammar;
pub use parser::{resolve_ambiguity, Parser};
pub use set::{RuleRightSet, SymbolSet};
pub use symbol::{Interner, SessionGlobals, Symbol};
pub use tree::{Cell, Node, NodeChildren, Span};
