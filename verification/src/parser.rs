//! The chart parser: it fills the chart from the shortest spans to the whole
//! input and reads the parse tree off the last cell.

use crate::chart::{
    binary_node, binary_nodes, candidate_nodes, cell_nodes, character_nodes, combined_nodes,
    diagnostics, lemma_combined_without_suffixes, outcome_of, pair_nodes, parse_outcome,
    resolved_nodes, row_nodes, span_at, unit_node, unit_nodes,
};
use crate::derivation::lemma_parse_round_trip;
use crate::error::Diagnostic;
use crate::grammar::Grammar;
use crate::symbol::{Interner, Symbol};
use crate::tree::{Cell, Node, NodeChildren, Span};
use vstd::prelude::*;

verus! {

/// The characters of `string`, in order.
pub fn characters(string: &str) -> (chars: Vec<char>)
    ensures
        chars@ == string@,
{
    let mut chars: Vec<char> = Vec::new();
    for c in it: string.chars()
        invariant
            chars@ == it.seq().take(it.index() as int),
            it.seq() == string@,
    {
        chars.push(c);
    }
    chars
}

/// What is left of a span of `len` characters behind its first part `span`.
fn rest_span(span: Span, len: usize) -> (rest: Option<Span>)
    requires
        span.0 + span.1 <= usize::MAX,
    ensures
        rest == (if span.1 >= len {
            None
        } else {
            Some(Span((span.0 + span.1) as usize, (len - span.1) as usize))
        }),
{
    if span.len() >= len {
        None
    } else {
        Some(Span::new(span.start() + span.len(), len - span.len()))
    }
}

/// The policy for a span that several splits can derive: of the candidate
/// cells, given in the order of their splits, the last one is committed.
pub fn resolve_ambiguity(candidates: Vec<Cell>) -> (winner: Option<Cell>)
    ensures
        winner == (if candidates@.len() == 0 {
            None
        } else {
            Some(candidates@.last())
        }),
{
    let mut candidates = candidates;
    candidates.pop()
}

/// A parser for one grammar. It owns the chart of the input it parsed last.
#[derive(Clone, Debug)]
pub struct Parser<'a, G> {
    grammar: &'a G,
    interner: &'a Interner,
    chars: Vec<char>,
    slices: Vec<Vec<Cell>>,
    unknowns: Vec<Diagnostic>,
}

impl<'a, G: Grammar> Parser<'a, G> {
    /// The grammar that the parser parses by.
    pub closed spec fn grammar(&self) -> &G {
        self.grammar
    }

    /// The interner that gives the input characters their symbols.
    pub closed spec fn interner(&self) -> &Interner {
        self.interner
    }

    /// The interner of the parser is well-formed.
    pub open spec fn wf(&self) -> bool {
        self.interner().wf()
    }

    /// Row `row` of the chart holds the committed cells of the first `count`
    /// spans of `row + 1` characters.
    spec fn row_holds(&self, row: int, count: int) -> bool {
        &&& 0 <= row < self.slices@.len()
        &&& self.slices@[row]@.len() == count
        &&& forall|start: int|
            0 <= start < count ==> (#[trigger] self.slices@[row]@[start]).0@ == cell_nodes(
                self.grammar,
                self.interner,
                self.chars@,
                start,
                row + 1,
            )
    }

    /// Row `row` of the chart holds the committed cells of all spans of
    /// `row + 1` characters.
    spec fn row_complete(&self, row: int) -> bool {
        self.row_holds(row, self.chars@.len() - row)
    }

    /// The chart is filled for all spans shorter than `len` and for the first
    /// `count` spans of `len` characters, and the diagnostics are those of the
    /// one-character spans filled so far.
    spec fn filling(&self, len: int, count: int) -> bool {
        &&& self.interner.wf()
        &&& 1 <= len <= self.chars@.len()
        &&& 0 <= count <= self.chars@.len() - len + 1
        &&& self.slices@.len() == len
        &&& forall|row: int| 0 <= row < len - 1 ==> #[trigger] self.row_complete(row)
        &&& self.row_holds(len - 1, count)
        &&& self.unknowns@ == diagnostics(
            self.grammar,
            self.interner,
            self.chars@,
            if len == 1 {
                count
            } else {
                self.chars@.len() as int
            },
        )
    }

    /// The parser reads the same input by the same grammar as `other`.
    spec fn same_input(&self, other: &Self) -> bool {
        &&& self.grammar == other.grammar
        &&& self.interner == other.interner
        &&& self.chars@ == other.chars@
    }

    pub fn new(grammar: &'a G, interner: &'a Interner) -> (parser: Self)
        requires
            interner.wf(),
        ensures
            parser.wf(),
            parser.grammar() == grammar,
            parser.interner() == interner,
    {
        Parser { grammar, interner, chars: Vec::new(), slices: Vec::new(), unknowns: Vec::new() }
    }

    /// Parses `string`: the tree of the start symbol over the whole input, or
    /// the characters that no rule derives.
    pub fn parse(&mut self, string: &str) -> (result: Result<Node, Vec<Diagnostic>>)
        requires
            old(self).wf(),
        ensures
            final(self).wf(),
            final(self).grammar() == old(self).grammar(),
            final(self).interner() == old(self).interner(),
            outcome_of(result) == parse_outcome(
                old(self).grammar(),
                old(self).interner(),
                string@,
            ),
            result matches Ok(node) ==> node.kind == old(self).grammar().start() && node.span
                == span_at(0, string@.len() as int) && node.resolvable(old(self).interner())
                && node.text(old(self).interner()) == string@,
            string@.len() == 0 ==> result is Err && result->Err_0@.len() == 0,
    {
        self.chars = characters(string);
        self.slices = Vec::new();
        self.unknowns = Vec::new();

        let src_len = self.src_len();
        let mut done: usize = 0;
        while done < src_len
            invariant
                self.interner.wf(),
                self.grammar == old(self).grammar,
                self.interner == old(self).interner,
                self.chars@ == string@,
                done <= src_len == self.chars@.len(),
                done == 0 ==> self.slices@.len() == 0 && self.unknowns@ == Seq::<Diagnostic>::empty(),
                done > 0 ==> self.filling(done as int, src_len - done + 1),
            decreases src_len - done,
        {
            let len = done + 1;
            let ghost before = *self;
            self.slices.push(Vec::new());
            proof {
                assert forall|row: int| 0 <= row < len - 1 implies #[trigger] self.row_complete(
                    row,
                ) by {
                    assert(self.slices@[row] == before.slices@[row]);
                    if row < done - 1 {
                        assert(before.row_complete(row));
                    } else {
                        assert(before.row_holds(done - 1, src_len - done + 1));
                    }
                }
                assert(self.row_holds(len - 1, 0));
                assert(self.filling(len as int, 0));
            }
            let spans = self.spans_from_len(len);
            let mut k: usize = 0;
            while k < spans.len()
                invariant
                    self.grammar == old(self).grammar,
                    self.interner == old(self).interner,
                    self.chars@ == string@,
                    src_len == self.chars@.len(),
                    len == done + 1,
                    done < src_len,
                    k <= spans@.len() == src_len - len + 1,
                    forall|i: int| 0 <= i < spans@.len() ==> spans@[i] == span_at(i, len as int),
                    self.filling(len as int, k as int),
                decreases spans@.len() - k,
            {
                let span = spans[k];
                assert(span == span_at(k as int, len as int));
                self.parse_span(span);
                k += 1;
            }
            done += 1;
        }

        let found = match self.get_cell(Span::new(0, src_len)) {
            Some(cell) => cell.has(self.grammar.start_symbol()),
            None => None,
        };
        proof {
            if src_len > 0 {
                assert(self.row_holds(src_len - 1, 1));
                assert(self.slices@[src_len - 1]@[0].0@ == cell_nodes(
                    self.grammar,
                    self.interner,
                    self.chars@,
                    0,
                    src_len as int,
                ));
            }
        }
        match found {
            Some(node) => {
                proof {
                    lemma_parse_round_trip(self.grammar, self.interner, self.chars@, node);
                }
                Ok(node)
            },
            None => {
                let unknowns = self.unknowns.clone();
                assert(unknowns@ == self.unknowns@);
                Err(unknowns)
            },
        }
    }

    /// Commits the cell of `span`, which is the next span that the chart lacks.
    fn parse_span(&mut self, span: Span)
        requires
            old(self).filling(span.1 as int, span.0 as int),
            span.0 + span.1 <= old(self).chars@.len(),
        ensures
            final(self).filling(span.1 as int, span.0 + 1),
            final(self).same_input(old(self)),
    {
        let src_len = self.src_len();
        let ghost before = *self;
        match span.len() {
            1 => {
                let start = span.start();
                let c = self.chars[start];
                let cell = self.derive_char(span, c);
                if cell.is_empty() {
                    self.add_unknown(c, span);
                }
                self.add_cell(cell, span);
                proof {
                    assert(span == span_at(start as int, 1));
                    assert(before.row_holds(0, start as int));
                    assert forall|at: int| 0 <= at < start + 1 implies (
                    #[trigger] self.slices@[0]@[at]).0@ == cell_nodes(
                        self.grammar,
                        self.interner,
                        self.chars@,
                        at,
                        1,
                    ) by {
                        if at < start {
                            assert(self.slices@[0]@[at] == before.slices@[0]@[at]);
                        }
                    }
                    assert(self.row_holds(0, start + 1));
                }
            },
            _ => {
                let mut cell_list: Vec<Cell> = Vec::new();
                let mut len: usize = 1;
                while len < span.len()
                    invariant
                        self.filling(span.1 as int, span.0 as int),
                        span.0 + span.1 <= self.chars@.len() == src_len,
                        1 <= len <= span.1,
                        cell_list@.len() == 0 ==> resolved_nodes(
                            self.grammar,
                            self.interner,
                            self.chars@,
                            span.0 as int,
                            span.1 as int,
                            len - 1,
                        ).len() == 0,
                        cell_list@.len() > 0 ==> cell_list@.last().0@ == resolved_nodes(
                            self.grammar,
                            self.interner,
                            self.chars@,
                            span.0 as int,
                            span.1 as int,
                            len - 1,
                        ),
                    decreases span.1 - len,
                {
                    let base_span = Span::new(span.start(), len);
                    let ghost bases = cell_nodes(
                        self.grammar,
                        self.interner,
                        self.chars@,
                        span.0 as int,
                        len as int,
                    );
                    let ghost rests = cell_nodes(
                        self.grammar,
                        self.interner,
                        self.chars@,
                        span.0 + len,
                        span.1 - len,
                    );
                    let ghost candidate = candidate_nodes(
                        self.grammar,
                        self.interner,
                        self.chars@,
                        span.0 as int,
                        span.1 as int,
                        len as int,
                    );
                    proof {
                        assert(span == span_at(span.0 as int, span.1 as int));
                        assert(candidate == combined_nodes(self.grammar, span, bases, rests));
                        assert(self.row_complete(len - 1));
                        assert(self.slices@[len - 1]@[span.0 as int].0@ == bases);
                        assert(self.row_complete(span.1 - len - 1));
                        assert(self.slices@[span.1 - len - 1]@[span.0 + len].0@ == rests);
                        lemma_combined_without_suffixes(self.grammar, span, bases);
                        assert(rests.len() == 0 ==> rests == Seq::<Node>::empty());
                    }
                    let mut next: Option<Cell> = None;
                    if let Some(base_cell) = self.get_cell(base_span) {
                        if let Some(rest_span) = rest_span(base_span, span.len()) {
                            if let Some(rest_cell) = self.get_cell(rest_span) {
                                next = self.derive(span, base_cell, rest_cell);
                            }
                        }
                    }
                    assert(match next {
                        Some(cell) => cell.0@ == candidate && candidate.len() > 0,
                        None => candidate.len() == 0,
                    });
                    if let Some(next_cell) = next {
                        cell_list.push(next_cell);
                    }
                    len += 1;
                }
                let winner = match resolve_ambiguity(cell_list) {
                    Some(cell) => cell,
                    None => Cell::new(Vec::new(), span),
                };
                assert(winner.0@ == cell_nodes(
                    self.grammar,
                    self.interner,
                    self.chars@,
                    span.0 as int,
                    span.1 as int,
                ));
                self.add_cell(winner, span);
                proof {
                    let row = span.1 - 1;
                    assert(before.row_holds(row, span.0 as int));
                    assert forall|at: int| 0 <= at < span.0 + 1 implies (
                    #[trigger] self.slices@[row]@[at]).0@ == cell_nodes(
                        self.grammar,
                        self.interner,
                        self.chars@,
                        at,
                        row + 1,
                    ) by {
                        if at < span.0 {
                            assert(self.slices@[row]@[at] == before.slices@[row]@[at]);
                        }
                    }
                    assert(self.row_holds(row, span.0 + 1));
                    assert forall|above: int| 0 <= above < row implies #[trigger] self.row_complete(
                        above,
                    ) by {
                        assert(before.row_complete(above));
                        assert(self.slices@[above] == before.slices@.drop_last()[above]);
                    }
                }
            },
        }
    }

    /// The cell of the one-character span that holds `c`.
    fn derive_char(&self, span: Span, c: char) -> (cell: Cell)
        requires
            self.interner.wf(),
        ensures
            cell.0@ == character_nodes(self.grammar, self.interner, c, span),
            cell.1 == span,
    {
        let mut next_cell = Cell::new(Vec::new(), span);

        if let Some(symbol) = Symbol::from_char(self.interner, c) {
            if let Some(symbols) = self.grammar.derive_single(symbol) {
                let mut k: usize = 0;
                while k < symbols.len()
                    invariant
                        k <= symbols@.len(),
                        next_cell.1 == span,
                        next_cell.0@ == unit_nodes(symbols@.take(k as int), symbol, span),
                    decreases symbols@.len() - k,
                {
                    if let Some(sym) = symbols.get(k) {
                        next_cell.push_nodes(
                            Node::new(
                                sym,
                                span,
                                NodeChildren::Single(
                                    Box::new(Node::new(symbol, span, NodeChildren::Leaf)),
                                ),
                            ),
                        );
                    }
                    assert(unit_nodes(symbols@.take(k + 1), symbol, span) == unit_nodes(
                        symbols@.take(k as int),
                        symbol,
                        span,
                    ).push(unit_node(symbols@[k as int], symbol, span)));
                    k += 1;
                }
                assert(symbols@.take(k as int) == symbols@);
            }
        }
        next_cell
    }

    /// What the split of `span` into the spans of `base` and `suffix` yields.
    fn derive(&self, span: Span, base: &Cell, suffix: &Cell) -> (next: Option<Cell>)
        ensures
            match next {
                Some(cell) => cell.0@ == combined_nodes(self.grammar, span, base.0@, suffix.0@)
                    && cell.0@.len() > 0 && cell.1 == span,
                None => combined_nodes(self.grammar, span, base.0@, suffix.0@).len() == 0,
            },
    {
        let mut next_cell = Cell::new(Vec::new(), span);

        let mut i: usize = 0;
        while i < base.0.len()
            invariant
                i <= base.0@.len(),
                next_cell.1 == span,
                next_cell.0@ == combined_nodes(self.grammar, span, base.0@.take(i as int), suffix.0@),
            decreases base.0@.len() - i,
        {
            let cur = &base.0[i];
            let ghost above = next_cell.0@;
            let mut j: usize = 0;
            while j < suffix.0.len()
                invariant
                    j <= suffix.0@.len(),
                    next_cell.1 == span,
                    next_cell.0@ == above + row_nodes(
                        self.grammar,
                        span,
                        *cur,
                        suffix.0@.take(j as int),
                    ),
                decreases suffix.0@.len() - j,
            {
                let suf = &suffix.0[j];
                let ghost before = next_cell.0@;
                if let Some(symbols) = self.grammar.follow(cur.kind) {
                    if symbols.contains(&suf.kind) {
                        if let Some(parents) = self.grammar.derive(cur.kind, suf.kind) {
                            let mut k: usize = 0;
                            while k < parents.len()
                                invariant
                                    k <= parents@.len(),
                                    next_cell.1 == span,
                                    next_cell.0@ == before + binary_nodes(
                                        parents@.take(k as int),
                                        span,
                                        *cur,
                                        *suf,
                                    ),
                                decreases parents@.len() - k,
                            {
                                if let Some(symbol) = parents.get(k) {
                                    next_cell.push_nodes(
                                        Node::new(
                                            symbol,
                                            span,
                                            NodeChildren::Double(
                                                Box::new(cur.clone()),
                                                Box::new(suf.clone()),
                                            ),
                                        ),
                                    );
                                }
                                assert(binary_nodes(parents@.take(k + 1), span, *cur, *suf)
                                    == binary_nodes(parents@.take(k as int), span, *cur, *suf).push(
                                    binary_node(parents@[k as int], span, *cur, *suf),
                                ));
                                k += 1;
                            }
                            assert(parents@.take(k as int) == parents@);
                        }
                    }
                }
                assert(next_cell.0@ == before + pair_nodes(self.grammar, span, *cur, *suf));
                assert(suffix.0@.take(j + 1).drop_last() == suffix.0@.take(j as int));
                j += 1;
            }
            assert(suffix.0@.take(j as int) == suffix.0@);
            assert(base.0@.take(i + 1).drop_last() == base.0@.take(i as int));
            i += 1;
        }
        assert(base.0@.take(i as int) == base.0@);

        if !next_cell.is_empty() {
            Some(next_cell)
        } else {
            None
        }
    }

    /// The committed cell of `span`, if the chart holds it and it is not empty.
    fn get_cell(&self, span: Span) -> (found: Option<&Cell>)
        ensures
            match found {
                Some(cell) => 0 < span.1 <= self.slices@.len() && span.0 < self.slices@[span.1
                    - 1]@.len() && *cell == self.slices@[span.1 - 1]@[span.0 as int] && cell.0@.len()
                    > 0,
                None => !(0 < span.1 <= self.slices@.len() && span.0 < self.slices@[span.1
                    - 1]@.len()) || self.slices@[span.1 - 1]@[span.0 as int].0@.len() == 0,
            },
    {
        let len = span.len();
        if len == 0 || len > self.slices.len() {
            return None;
        }
        let row = &self.slices[len - 1];
        let start = span.start();
        if start >= row.len() {
            return None;
        }
        let cell = &row[start];
        if cell.is_empty() {
            None
        } else {
            Some(cell)
        }
    }

    /// The spans of `len` characters, from the first position to the last.
    fn spans_from_len(&self, len: usize) -> (spans: Vec<Span>)
        requires
            1 <= len <= self.chars@.len(),
        ensures
            spans@.len() == self.chars@.len() - len + 1,
            forall|i: int| 0 <= i < spans@.len() ==> spans@[i] == span_at(i, len as int),
    {
        let mut spans: Vec<Span> = Vec::new();
        let src_len = self.src_len();

        let mut i: usize = 0;
        while i < src_len - len + 1
            invariant
                1 <= len <= src_len == self.chars@.len(),
                i <= src_len - len + 1,
                spans@.len() == i,
                forall|k: int| 0 <= k < i ==> spans@[k] == span_at(k, len as int),
            decreases src_len - len + 1 - i,
        {
            spans.push(Span::new(i, len));
            i += 1;
        }
        spans
    }

    /// Puts `cell` behind the cells of the longest spans filled so far.
    fn add_cell(&mut self, cell: Cell, span: Span)
        requires
            old(self).slices@.len() > 0,
        ensures
            final(self).same_input(old(self)),
            final(self).unknowns == old(self).unknowns,
            final(self).slices@.len() == old(self).slices@.len(),
            final(self).slices@.drop_last() == old(self).slices@.drop_last(),
            final(self).slices@.last()@ == old(self).slices@.last()@.push(cell),
    {
        if let Some(mut row) = self.slices.pop() {
            row.push(cell);
            self.slices.push(row);
        }
    }

    fn add_unknown(&mut self, c: char, span: Span)
        ensures
            final(self).same_input(old(self)),
            final(self).slices == old(self).slices,
            final(self).unknowns@ == old(self).unknowns@.push(Diagnostic { character: c, span }),
    {
        self.unknowns.push(Diagnostic::new(c, span));
    }

    fn src_len(&self) -> (len: usize)
        ensures
            len == self.chars@.len(),
    {
        self.chars.len()
    }
}

} // verus!
