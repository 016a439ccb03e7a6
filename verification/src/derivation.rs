//! What the chart guarantees: every node it holds is a derivation of the
//! characters under its span, a parse tree spells its input, a character
//! without a rule is always reported, and the split that wins is the last.

use crate::chart::{
    binary_node, candidate_nodes, cell_nodes, character_nodes, combined_nodes, diagnostics,
    outcome_of, parse_outcome, recognized, resolved_nodes, row_nodes, span_at, unit_node,
};
use crate::error::Diagnostic;
use crate::grammar::Grammar;
use crate::symbol::Interner;
use crate::tree::{lemma_first_of_kind, Node, NodeChildren, Span};
use vstd::prelude::*;

verus! {

/// `node` is a derivation of the characters of `chars` under its span: either
/// a unit rule rewrites its kind to the symbol of the one character there, or
/// a binary rule rewrites its kind to the kinds of two derivations that tile
/// the span.
pub open spec fn derives<G: Grammar>(
    grammar: &G,
    interner: &Interner,
    chars: Seq<char>,
    node: Node,
) -> bool
    decreases node,
{
    &&& node.span.0 + node.span.1 <= chars.len()
    &&& match node.children {
        NodeChildren::Leaf => false,
        NodeChildren::Single(child) => {
            &&& node.span.1 == 1
            &&& child.span == node.span
            &&& child.children is Leaf
            &&& interner.symbol_of(seq![chars[node.span.0 as int]]) == Some(child.kind)
            &&& grammar.unit_parents(child.kind).contains(node.kind)
        },
        NodeChildren::Double(left, right) => {
            &&& left.span.1 >= 1
            &&& right.span.1 >= 1
            &&& left.span.0 == node.span.0
            &&& right.span.0 == left.span.0 + left.span.1
            &&& left.span.1 + right.span.1 == node.span.1
            &&& derives(grammar, interner, chars, *left)
            &&& derives(grammar, interner, chars, *right)
            &&& grammar.successors_after(left.kind).contains(right.kind)
            &&& grammar.binary_parents(left.kind, right.kind).contains(node.kind)
        },
    }
}

/// `node` stands in the cell of the span of `len` characters from `start`
/// with good reason: it has that span and derives the characters under it.
pub open spec fn derives_span<G: Grammar>(
    grammar: &G,
    interner: &Interner,
    chars: Seq<char>,
    start: int,
    len: int,
    node: Node,
) -> bool {
    &&& 0 <= start
    &&& 1 <= len
    &&& start + len <= chars.len()
    &&& node.span == span_at(start, len)
    &&& derives(grammar, interner, chars, node)
}

/// The character at position `at`. Naming it tells the solver that it is a
/// character, which it does not learn from the sequence alone.
spec fn character_at(chars: Seq<char>, at: int) -> char {
    chars[at]
}

/// A derivation spells the characters under its span, and each of its leaves
/// carries a symbol of the interner.
pub proof fn lemma_derivation_text<G: Grammar>(
    grammar: &G,
    interner: &Interner,
    chars: Seq<char>,
    node: Node,
)
    requires
        interner.wf(),
        derives(grammar, interner, chars, node),
    ensures
        node.resolvable(interner),
        node.text(interner) == chars.subrange(
            node.span.0 as int,
            node.span.0 + node.span.1,
        ),
    decreases node,
{
    let from = node.span.0 as int;
    match node.children {
        NodeChildren::Leaf => {},
        NodeChildren::Single(child) => {
            interner.lemma_symbol_of(seq![chars[from]]);
            assert(child.resolvable(interner));
            assert(child.text(interner) == interner.text_of(child.kind));
            assert(chars.subrange(from, from + 1) == seq![chars[from]]);
        },
        NodeChildren::Double(left, right) => {
            lemma_derivation_text(grammar, interner, chars, *left);
            lemma_derivation_text(grammar, interner, chars, *right);
            let middle = from + left.span.1;
            assert(chars.subrange(from, from + node.span.1) == chars.subrange(from, middle)
                + chars.subrange(middle, middle + right.span.1));
        },
    }
}

/// Every character under the span of a derivation is derived by a unit rule.
pub proof fn lemma_derivation_recognizes<G: Grammar>(
    grammar: &G,
    interner: &Interner,
    chars: Seq<char>,
    node: Node,
    at: int,
)
    requires
        derives(grammar, interner, chars, node),
        node.span.0 <= at < node.span.0 + node.span.1,
    ensures
        recognized(grammar, interner, chars[at]),
    decreases node,
{
    match node.children {
        NodeChildren::Leaf => {},
        NodeChildren::Single(child) => {
            let parents = grammar.unit_parents(child.kind);
            assert(parents.contains(node.kind));
        },
        NodeChildren::Double(left, right) => {
            if at < right.span.0 {
                lemma_derivation_recognizes(grammar, interner, chars, *left, at);
            } else {
                lemma_derivation_recognizes(grammar, interner, chars, *right, at);
            }
        },
    }
}

/// The nodes over `base` and the nodes of `suffixes` each join `base` with one
/// of them by a binary rule.
pub proof fn lemma_row_nodes<G: Grammar>(
    grammar: &G,
    span: Span,
    base: Node,
    suffixes: Seq<Node>,
    k: int,
)
    requires
        0 <= k < row_nodes(grammar, span, base, suffixes).len(),
    ensures
        ({
            let node = row_nodes(grammar, span, base, suffixes)[k];
            exists|j: int, p: int|
                0 <= j < suffixes.len() && 0 <= p < grammar.binary_parents(
                    base.kind,
                    suffixes[j].kind,
                ).len() && grammar.successors_after(base.kind).contains(suffixes[j].kind) && node
                    == binary_node(
                    #[trigger] grammar.binary_parents(base.kind, suffixes[j].kind)[p],
                    span,
                    base,
                    suffixes[j],
                )
        }),
    decreases suffixes.len(),
{
    let front = row_nodes(grammar, span, base, suffixes.drop_last());
    if k < front.len() {
        lemma_row_nodes(grammar, span, base, suffixes.drop_last(), k);
        let (j, p) = choose|j: int, p: int|
            0 <= j < suffixes.drop_last().len() && 0 <= p < grammar.binary_parents(
                base.kind,
                suffixes.drop_last()[j].kind,
            ).len() && grammar.successors_after(base.kind).contains(suffixes.drop_last()[j].kind)
                && front[k] == binary_node(
                #[trigger] grammar.binary_parents(base.kind, suffixes.drop_last()[j].kind)[p],
                span,
                base,
                suffixes.drop_last()[j],
            );
        assert(suffixes.drop_last()[j] == suffixes[j]);
        assert(row_nodes(grammar, span, base, suffixes)[k] == binary_node(
            grammar.binary_parents(base.kind, suffixes[j].kind)[p],
            span,
            base,
            suffixes[j],
        ));
    } else {
        let j = suffixes.len() - 1;
        let p = k - front.len();
        assert(row_nodes(grammar, span, base, suffixes)[k] == binary_node(
            grammar.binary_parents(base.kind, suffixes[j].kind)[p],
            span,
            base,
            suffixes[j],
        ));
    }
}

/// Each node that a split yields joins a node of the first cell with a node
/// of the second by a binary rule.
pub proof fn lemma_combined_nodes<G: Grammar>(
    grammar: &G,
    span: Span,
    bases: Seq<Node>,
    suffixes: Seq<Node>,
    k: int,
)
    requires
        0 <= k < combined_nodes(grammar, span, bases, suffixes).len(),
    ensures
        ({
            let node = combined_nodes(grammar, span, bases, suffixes)[k];
            exists|i: int, j: int|
                0 <= i < bases.len() && 0 <= j < suffixes.len() && grammar.successors_after(
                    bases[i].kind,
                ).contains(suffixes[j].kind) && grammar.binary_parents(
                    bases[i].kind,
                    suffixes[j].kind,
                ).contains(node.kind) && node == #[trigger] binary_node(
                    node.kind,
                    span,
                    bases[i],
                    suffixes[j],
                )
        }),
    decreases bases.len(),
{
    let front = combined_nodes(grammar, span, bases.drop_last(), suffixes);
    let node = combined_nodes(grammar, span, bases, suffixes)[k];
    if k < front.len() {
        lemma_combined_nodes(grammar, span, bases.drop_last(), suffixes, k);
        let (i, j) = choose|i: int, j: int|
            0 <= i < bases.drop_last().len() && 0 <= j < suffixes.len()
                && grammar.successors_after(bases.drop_last()[i].kind).contains(suffixes[j].kind)
                && grammar.binary_parents(bases.drop_last()[i].kind, suffixes[j].kind).contains(
                node.kind,
            ) && node == #[trigger] binary_node(
                node.kind,
                span,
                bases.drop_last()[i],
                suffixes[j],
            );
        assert(bases.drop_last()[i] == bases[i]);
        assert(node == binary_node(node.kind, span, bases[i], suffixes[j]));
    } else {
        let i = bases.len() - 1;
        lemma_row_nodes(grammar, span, bases[i], suffixes, k - front.len());
        let (j, p) = choose|j: int, p: int|
            0 <= j < suffixes.len() && 0 <= p < grammar.binary_parents(
                bases[i].kind,
                suffixes[j].kind,
            ).len() && grammar.successors_after(bases[i].kind).contains(suffixes[j].kind) && node
                == binary_node(
                #[trigger] grammar.binary_parents(bases[i].kind, suffixes[j].kind)[p],
                span,
                bases[i],
                suffixes[j],
            );
        assert(node == binary_node(node.kind, span, bases[i], suffixes[j]));
    }
}

/// Every node in a committed cell has the span of the cell and derives the
/// characters under it.
pub proof fn lemma_cell_nodes_derive<G: Grammar>(
    grammar: &G,
    interner: &Interner,
    chars: Seq<char>,
    start: int,
    len: int,
)
    requires
        chars.len() <= usize::MAX,
    ensures
        forall|k: int|
            0 <= k < cell_nodes(grammar, interner, chars, start, len).len() ==> derives_span(
                grammar,
                interner,
                chars,
                start,
                len,
                #[trigger] cell_nodes(grammar, interner, chars, start, len)[k],
            ),
    decreases len, len,
{
    let cell = cell_nodes(grammar, interner, chars, start, len);
    if start < 0 || len <= 0 || start + len > chars.len() {
    } else if len == 1 {
        let span = span_at(start, 1);
        let nodes = character_nodes(grammar, interner, chars[start], span);
        assert(cell == nodes);
        assert forall|k: int| 0 <= k < nodes.len() implies derives_span(
            grammar,
            interner,
            chars,
            start,
            len,
            #[trigger] nodes[k],
        ) by {
            let terminal = interner.symbol_of(seq![chars[start]])->0;
            let parents = grammar.unit_parents(terminal);
            assert(nodes[k] == unit_node(parents[k], terminal, span));
            assert(parents.contains(parents[k]));
            assert(derives(grammar, interner, chars, nodes[k]));
        }
    } else {
        assert(cell == resolved_nodes(grammar, interner, chars, start, len, len - 1));
        lemma_resolved_nodes_derive(grammar, interner, chars, start, len, len - 1);
    }
}

/// Every node of a candidate has the span that was split and derives the
/// characters under it.
pub proof fn lemma_candidate_nodes_derive<G: Grammar>(
    grammar: &G,
    interner: &Interner,
    chars: Seq<char>,
    start: int,
    len: int,
    split: int,
)
    requires
        chars.len() <= usize::MAX,
    ensures
        forall|k: int|
            0 <= k < candidate_nodes(grammar, interner, chars, start, len, split).len()
                ==> derives_span(
                grammar,
                interner,
                chars,
                start,
                len,
                #[trigger] candidate_nodes(grammar, interner, chars, start, len, split)[k],
            ),
    decreases len, 0int,
{
    let candidate = candidate_nodes(grammar, interner, chars, start, len, split);
    if 0 < split < len {
        let span = span_at(start, len);
        let bases = cell_nodes(grammar, interner, chars, start, split);
        let suffixes = cell_nodes(grammar, interner, chars, start + split, len - split);
        let nodes = combined_nodes(grammar, span, bases, suffixes);
        assert(candidate == nodes);
        lemma_cell_nodes_derive(grammar, interner, chars, start, split);
        lemma_cell_nodes_derive(grammar, interner, chars, start + split, len - split);
        assert forall|k: int| 0 <= k < nodes.len() implies derives_span(
            grammar,
            interner,
            chars,
            start,
            len,
            #[trigger] nodes[k],
        ) by {
            lemma_combined_nodes(grammar, span, bases, suffixes, k);
            let node = nodes[k];
            let (i, j) = choose|i: int, j: int|
                0 <= i < bases.len() && 0 <= j < suffixes.len() && grammar.successors_after(
                    bases[i].kind,
                ).contains(suffixes[j].kind) && grammar.binary_parents(
                    bases[i].kind,
                    suffixes[j].kind,
                ).contains(node.kind) && node == #[trigger] binary_node(
                    node.kind,
                    span,
                    bases[i],
                    suffixes[j],
                );
            assert(derives_span(grammar, interner, chars, start, split, bases[i]));
            assert(derives_span(
                grammar,
                interner,
                chars,
                start + split,
                len - split,
                suffixes[j],
            ));
            assert(derives(grammar, interner, chars, node));
        }
    }
}

/// Every node of the candidate that wins among the first splits has the span
/// that was split and derives the characters under it.
pub proof fn lemma_resolved_nodes_derive<G: Grammar>(
    grammar: &G,
    interner: &Interner,
    chars: Seq<char>,
    start: int,
    len: int,
    upto: int,
)
    requires
        chars.len() <= usize::MAX,
    ensures
        forall|k: int|
            0 <= k < resolved_nodes(grammar, interner, chars, start, len, upto).len()
                ==> derives_span(
                grammar,
                interner,
                chars,
                start,
                len,
                #[trigger] resolved_nodes(grammar, interner, chars, start, len, upto)[k],
            ),
    decreases len, upto,
{
    let resolved = resolved_nodes(grammar, interner, chars, start, len, upto);
    if upto <= 0 || upto >= len {
    } else if candidate_nodes(grammar, interner, chars, start, len, upto).len() > 0 {
        assert(resolved == candidate_nodes(grammar, interner, chars, start, len, upto));
        lemma_candidate_nodes_derive(grammar, interner, chars, start, len, upto);
    } else {
        assert(resolved == resolved_nodes(grammar, interner, chars, start, len, upto - 1));
        lemma_resolved_nodes_derive(grammar, interner, chars, start, len, upto - 1);
    }
}

/// The diagnostics hold one entry for each character that no unit rule
/// derives, at the position of that character.
pub proof fn lemma_diagnostics<G: Grammar>(
    grammar: &G,
    interner: &Interner,
    chars: Seq<char>,
    upto: int,
    at: int,
)
    requires
        0 <= at < upto <= chars.len(),
        !recognized(grammar, interner, chars[at]),
    ensures
        diagnostics(grammar, interner, chars, upto).contains(
            Diagnostic { character: chars[at], span: span_at(at, 1) },
        ),
    decreases upto,
{
    let all = diagnostics(grammar, interner, chars, upto);
    let before = diagnostics(grammar, interner, chars, upto - 1);
    let last = Diagnostic { character: character_at(chars, upto - 1), span: span_at(upto - 1, 1) };
    if at == upto - 1 {
        assert(all[before.len() as int] == last);
    } else {
        lemma_diagnostics(grammar, interner, chars, upto - 1, at);
        let entry = Diagnostic { character: chars[at], span: span_at(at, 1) };
        let i = before.index_of(entry);
        assert(all[i] == entry);
    }
}

/// Every diagnostic names a character of the input that no unit rule
/// derives, with the one-character span it stands at.
pub proof fn lemma_diagnostics_only<G: Grammar>(
    grammar: &G,
    interner: &Interner,
    chars: Seq<char>,
    upto: int,
    k: int,
)
    requires
        upto <= chars.len(),
        0 <= k < diagnostics(grammar, interner, chars, upto).len(),
    ensures
        ({
            let entry = diagnostics(grammar, interner, chars, upto)[k];
            exists|at: int|
                0 <= at < upto && !recognized(grammar, interner, #[trigger] chars[at]) && entry
                    == (Diagnostic { character: chars[at], span: span_at(at, 1) })
        }),
    decreases upto,
{
    if upto > 0 {
        let all = diagnostics(grammar, interner, chars, upto);
        let before = diagnostics(grammar, interner, chars, upto - 1);
        let last = Diagnostic { character: character_at(chars, upto - 1), span: span_at(upto - 1, 1) };
        if k < before.len() {
            lemma_diagnostics_only(grammar, interner, chars, upto - 1, k);
            let at = choose|at: int|
                0 <= at < upto - 1 && !recognized(grammar, interner, #[trigger] chars[at])
                    && before[k] == (Diagnostic { character: chars[at], span: span_at(at, 1) });
            assert(all[k] == before[k]);
            assert(!recognized(grammar, interner, chars[at]));
        } else {
            assert(all[k] == last);
            assert(!recognized(grammar, interner, chars[upto - 1]));
        }
    }
}

/// The tree that a parse returns has the start symbol, spans the whole input,
/// derives it by the rules of the grammar, and spells it character for
/// character.
pub proof fn lemma_parse_round_trip<G: Grammar>(
    grammar: &G,
    interner: &Interner,
    chars: Seq<char>,
    node: Node,
)
    requires
        interner.wf(),
        chars.len() <= usize::MAX,
        parse_outcome(grammar, interner, chars) == Ok::<Node, Seq<Diagnostic>>(node),
    ensures
        node.kind == grammar.start(),
        node.span == span_at(0, chars.len() as int),
        derives(grammar, interner, chars, node),
        node.resolvable(interner),
        node.text(interner) == chars,
{
    let nodes = cell_nodes(grammar, interner, chars, 0, chars.len() as int);
    lemma_first_of_kind(nodes, grammar.start());
    lemma_cell_nodes_derive(grammar, interner, chars, 0, chars.len() as int);
    let k = choose|k: int| 0 <= k < nodes.len() && nodes[k] == node;
    assert(derives_span(grammar, interner, chars, 0, chars.len() as int, nodes[k]));
    lemma_derivation_text(grammar, interner, chars, node);
    assert(chars.subrange(0, chars.len() as int) == chars);
}

/// When no unit rule derives the character at position `at`, the parse fails,
/// and its diagnostics hold that character with that position.
pub proof fn lemma_unrecognized_character_is_reported<G: Grammar>(
    grammar: &G,
    interner: &Interner,
    chars: Seq<char>,
    at: int,
)
    requires
        chars.len() <= usize::MAX,
        0 <= at < chars.len(),
        !recognized(grammar, interner, chars[at]),
    ensures
        parse_outcome(grammar, interner, chars) is Err,
        parse_outcome(grammar, interner, chars)->Err_0.len() > 0,
        parse_outcome(grammar, interner, chars)->Err_0.contains(
            Diagnostic { character: chars[at], span: span_at(at, 1) },
        ),
{
    let nodes = cell_nodes(grammar, interner, chars, 0, chars.len() as int);
    if nodes.len() > 0 {
        lemma_cell_nodes_derive(grammar, interner, chars, 0, chars.len() as int);
        assert(derives_span(grammar, interner, chars, 0, chars.len() as int, nodes[0]));
        lemma_derivation_recognizes(grammar, interner, chars, nodes[0], at);
    }
    lemma_diagnostics(grammar, interner, chars, chars.len() as int, at);
}

/// When several splits of a span yield nodes, the cell of the span is the
/// candidate of the last of them.
pub proof fn lemma_last_split_wins<G: Grammar>(
    grammar: &G,
    interner: &Interner,
    chars: Seq<char>,
    start: int,
    len: int,
    split: int,
)
    requires
        0 <= start,
        start + len <= chars.len(),
        0 < split < len,
        candidate_nodes(grammar, interner, chars, start, len, split).len() > 0,
        forall|later: int|
            split < later < len ==> candidate_nodes(
                grammar,
                interner,
                chars,
                start,
                len,
                later,
            ).len() == 0,
    ensures
        cell_nodes(grammar, interner, chars, start, len) == candidate_nodes(
            grammar,
            interner,
            chars,
            start,
            len,
            split,
        ),
{
    assert(cell_nodes(grammar, interner, chars, start, len) == resolved_nodes(
        grammar,
        interner,
        chars,
        start,
        len,
        len - 1,
    ));
    lemma_resolved_is_last(grammar, interner, chars, start, len, len - 1, split);
}

/// Among the splits `1..=upto` the last one that yields nodes wins.
pub proof fn lemma_resolved_is_last<G: Grammar>(
    grammar: &G,
    interner: &Interner,
    chars: Seq<char>,
    start: int,
    len: int,
    upto: int,
    split: int,
)
    requires
        0 < split <= upto < len,
        candidate_nodes(grammar, interner, chars, start, len, split).len() > 0,
        forall|later: int|
            split < later <= upto ==> candidate_nodes(
                grammar,
                interner,
                chars,
                start,
                len,
                later,
            ).len() == 0,
    ensures
        resolved_nodes(grammar, interner, chars, start, len, upto) == candidate_nodes(
            grammar,
            interner,
            chars,
            start,
            len,
            split,
        ),
    decreases upto,
{
    if split < upto {
        lemma_resolved_is_last(grammar, interner, chars, start, len, upto - 1, split);
        assert(candidate_nodes(grammar, interner, chars, start, len, upto).len() == 0);
    }
}

/// A span that no split derives has an empty cell.
pub proof fn lemma_no_split_no_node<G: Grammar>(
    grammar: &G,
    interner: &Interner,
    chars: Seq<char>,
    start: int,
    len: int,
    upto: int,
)
    requires
        forall|split: int|
            0 < split <= upto ==> candidate_nodes(
                grammar,
                interner,
                chars,
                start,
                len,
                split,
            ).len() == 0,
    ensures
        resolved_nodes(grammar, interner, chars, start, len, upto).len() == 0,
        upto == len - 1 && len >= 2 ==> cell_nodes(grammar, interner, chars, start, len).len()
            == 0,
    decreases upto,
{
    if 0 < upto < len {
        lemma_no_split_no_node(grammar, interner, chars, start, len, upto - 1);
        assert(candidate_nodes(grammar, interner, chars, start, len, upto).len() == 0);
    }
}

/// Two values that a parse of the same input by the same grammar may return
/// hold the same tree, or the same diagnostics.
pub proof fn lemma_parse_is_deterministic<G: Grammar>(
    grammar: &G,
    interner: &Interner,
    chars: Seq<char>,
    first: Result<Node, Vec<Diagnostic>>,
    second: Result<Node, Vec<Diagnostic>>,
)
    requires
        outcome_of(first) == parse_outcome(grammar, interner, chars),
        outcome_of(second) == parse_outcome(grammar, interner, chars),
    ensures
        first is Ok <==> second is Ok,
        first is Ok ==> first->Ok_0 == second->Ok_0,
        first is Err ==> first->Err_0@ == second->Err_0@,
{
}

/// The empty input has no parse tree, and no diagnostic either.
pub proof fn lemma_empty_input_fails<G: Grammar>(grammar: &G, interner: &Interner, chars: Seq<char>)
    requires
        chars.len() == 0,
    ensures
        parse_outcome(grammar, interner, chars) == Err::<Node, Seq<Diagnostic>>(Seq::empty()),
{
}

} // verus!
