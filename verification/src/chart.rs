//! The chart as a mathematical object: which nodes stand in the cell of each
//! span, and what a parse returns.

use crate::error::Diagnostic;
use crate::grammar::Grammar;
use crate::symbol::{Interner, Symbol};
use crate::tree::{first_of_kind, Node, NodeChildren, Span};
use vstd::prelude::*;

verus! {

/// The span of `len` characters from position `start`.
pub open spec fn span_at(start: int, len: int) -> Span {
    Span(start as usize, len as usize)
}

/// The node for one input character: its symbol, without children.
pub open spec fn leaf(terminal: Symbol, span: Span) -> Node {
    Node { kind: terminal, span, children: NodeChildren::Leaf }
}

/// The node of kind `parent` over the character node `leaf(terminal, span)`.
pub open spec fn unit_node(parent: Symbol, terminal: Symbol, span: Span) -> Node {
    Node { kind: parent, span, children: NodeChildren::Single(Box::new(leaf(terminal, span))) }
}

/// The node of kind `parent` over the two adjacent nodes `base` and `suffix`.
pub open spec fn binary_node(parent: Symbol, span: Span, base: Node, suffix: Node) -> Node {
    Node { kind: parent, span, children: NodeChildren::Double(Box::new(base), Box::new(suffix)) }
}

/// One node per symbol of `parents`, in their order, over the character node.
pub open spec fn unit_nodes(parents: Seq<Symbol>, terminal: Symbol, span: Span) -> Seq<Node> {
    Seq::new(parents.len(), |i: int| unit_node(parents[i], terminal, span))
}

/// One node per symbol of `parents`, in their order, over `base` and `suffix`.
pub open spec fn binary_nodes(parents: Seq<Symbol>, span: Span, base: Node, suffix: Node) -> Seq<
    Node,
> {
    Seq::new(parents.len(), |i: int| binary_node(parents[i], span, base, suffix))
}

/// The cell of the one-character span that holds `c`: a node for each unit
/// rule that derives the character, and nothing when the character has no
/// symbol or no rule.
pub open spec fn character_nodes<G: Grammar>(
    grammar: &G,
    interner: &Interner,
    c: char,
    span: Span,
) -> Seq<Node> {
    match interner.symbol_of(seq![c]) {
        Some(terminal) => unit_nodes(grammar.unit_parents(terminal), terminal, span),
        None => Seq::empty(),
    }
}

/// Whether some unit rule derives the character `c`.
pub open spec fn recognized<G: Grammar>(grammar: &G, interner: &Interner, c: char) -> bool {
    match interner.symbol_of(seq![c]) {
        Some(terminal) => grammar.unit_parents(terminal).len() > 0,
        None => false,
    }
}

/// The nodes over the pair `base`, `suffix`: one for each binary rule with that
/// right side, provided `suffix` may follow `base` at all.
pub open spec fn pair_nodes<G: Grammar>(grammar: &G, span: Span, base: Node, suffix: Node) -> Seq<
    Node,
> {
    if grammar.successors_after(base.kind).contains(suffix.kind) {
        binary_nodes(grammar.binary_parents(base.kind, suffix.kind), span, base, suffix)
    } else {
        Seq::empty()
    }
}

/// The nodes over `base` and each node of `suffixes` in turn.
pub open spec fn row_nodes<G: Grammar>(
    grammar: &G,
    span: Span,
    base: Node,
    suffixes: Seq<Node>,
) -> Seq<Node>
    decreases suffixes.len(),
{
    if suffixes.len() == 0 {
        Seq::empty()
    } else {
        row_nodes(grammar, span, base, suffixes.drop_last()) + pair_nodes(
            grammar,
            span,
            base,
            suffixes.last(),
        )
    }
}

/// The nodes over each node of `bases` in turn and each node of `suffixes`:
/// what one split of a span yields from the cells of its two parts.
pub open spec fn combined_nodes<G: Grammar>(
    grammar: &G,
    span: Span,
    bases: Seq<Node>,
    suffixes: Seq<Node>,
) -> Seq<Node>
    decreases bases.len(),
{
    if bases.len() == 0 {
        Seq::empty()
    } else {
        combined_nodes(grammar, span, bases.drop_last(), suffixes) + row_nodes(
            grammar,
            span,
            bases.last(),
            suffixes,
        )
    }
}

/// The committed cell of the span of `len` characters from `start`: for one
/// character the nodes of its unit rules, for more the candidate of the last
/// split that yields any node. A span outside the input has an empty cell.
pub open spec fn cell_nodes<G: Grammar>(
    grammar: &G,
    interner: &Interner,
    chars: Seq<char>,
    start: int,
    len: int,
) -> Seq<Node>
    decreases len, len,
{
    if start < 0 || len <= 0 || start + len > chars.len() {
        Seq::empty()
    } else if len == 1 {
        character_nodes(grammar, interner, chars[start], span_at(start, 1))
    } else {
        resolved_nodes(grammar, interner, chars, start, len, len - 1)
    }
}

/// What the split of the span into its first `split` characters and the rest
/// yields from the committed cells of the two parts.
pub open spec fn candidate_nodes<G: Grammar>(
    grammar: &G,
    interner: &Interner,
    chars: Seq<char>,
    start: int,
    len: int,
    split: int,
) -> Seq<Node>
    decreases len, 0int,
{
    if 0 < split < len {
        combined_nodes(
            grammar,
            span_at(start, len),
            cell_nodes(grammar, interner, chars, start, split),
            cell_nodes(grammar, interner, chars, start + split, len - split),
        )
    } else {
        Seq::empty()
    }
}

/// The candidate of the last split among `1..=upto` that yields any node, and
/// nothing when none of them does.
pub open spec fn resolved_nodes<G: Grammar>(
    grammar: &G,
    interner: &Interner,
    chars: Seq<char>,
    start: int,
    len: int,
    upto: int,
) -> Seq<Node>
    decreases len, upto,
{
    if upto <= 0 || upto >= len {
        Seq::empty()
    } else if candidate_nodes(grammar, interner, chars, start, len, upto).len() > 0 {
        candidate_nodes(grammar, interner, chars, start, len, upto)
    } else {
        resolved_nodes(grammar, interner, chars, start, len, upto - 1)
    }
}

/// The diagnostics for the first `upto` characters: one for each character
/// that no unit rule derives, in the order of the input.
pub open spec fn diagnostics<G: Grammar>(
    grammar: &G,
    interner: &Interner,
    chars: Seq<char>,
    upto: int,
) -> Seq<Diagnostic>
    decreases upto,
{
    if upto <= 0 {
        Seq::empty()
    } else if recognized(grammar, interner, chars[upto - 1]) {
        diagnostics(grammar, interner, chars, upto - 1)
    } else {
        diagnostics(grammar, interner, chars, upto - 1).push(
            Diagnostic { character: chars[upto - 1], span: span_at(upto - 1, 1) },
        )
    }
}

/// What parsing `chars` returns: the first node of the start symbol in the
/// cell of the whole input, or else the diagnostics of all its characters.
pub open spec fn parse_outcome<G: Grammar>(grammar: &G, interner: &Interner, chars: Seq<char>) -> Result<
    Node,
    Seq<Diagnostic>,
> {
    match first_of_kind(
        cell_nodes(grammar, interner, chars, 0, chars.len() as int),
        grammar.start(),
    ) {
        Some(node) => Ok(node),
        None => Err(diagnostics(grammar, interner, chars, chars.len() as int)),
    }
}

/// What a returned value reports, with the list of diagnostics as a sequence.
pub open spec fn outcome_of(result: Result<Node, Vec<Diagnostic>>) -> Result<Node, Seq<Diagnostic>> {
    match result {
        Ok(node) => Ok(node),
        Err(unknowns) => Err(unknowns@),
    }
}

/// A split yields nothing when the cell of its second part is empty.
pub proof fn lemma_combined_without_suffixes<G: Grammar>(grammar: &G, span: Span, bases: Seq<Node>)
    ensures
        combined_nodes(grammar, span, bases, Seq::empty()).len() == 0,
    decreases bases.len(),
{
    if bases.len() > 0 {
        lemma_combined_without_suffixes(grammar, span, bases.drop_last());
    }
}

} // verus!
