//! Grammars in Chomsky normal form: binary rules `A -> B C` and unit rules
//! `A -> a`, with the queries that the parser puts to them.

use crate::chart::{binary_nodes, pair_nodes};
use crate::error::GrammarError;
use crate::grammar::{answers, Grammar};
use crate::set::{
    append_distinct, insert_distinct, lemma_append_distinct, lemma_insert_distinct, RuleRightSet,
    SymbolSet,
};
use crate::symbol::Symbol;
use crate::tree::{Node, Span};
use vstd::prelude::*;

verus! {

/// The right side of a binary rule: its first and its second symbol.
#[derive(Debug, Clone, Copy, Hash, PartialEq, Eq, Structural)]
pub struct RuleRight(pub Symbol, pub Symbol);

impl RuleRight {
    pub fn new(left: Symbol, right: Symbol) -> (pair: RuleRight)
        ensures
            pair == RuleRight(left, right),
    {
        RuleRight(left, right)
    }
}

/// The first symbols of `branches`, each once, in the order of their first
/// occurrence.
pub open spec fn first_symbols_of(branches: Seq<RuleRight>) -> Seq<Symbol>
    decreases branches.len(),
{
    if branches.len() == 0 {
        Seq::empty()
    } else {
        insert_distinct(first_symbols_of(branches.drop_last()), branches.last().0)
    }
}

/// The second symbols of those of `branches` whose first symbol is `symbol`,
/// in the order of the branches.
pub open spec fn second_symbols_of(branches: Seq<RuleRight>, symbol: Symbol) -> Seq<Symbol>
    decreases branches.len(),
{
    if branches.len() == 0 {
        Seq::empty()
    } else if branches.last().0 == symbol {
        second_symbols_of(branches.drop_last(), symbol).push(branches.last().1)
    } else {
        second_symbols_of(branches.drop_last(), symbol)
    }
}

/// `second_symbols_of` holds `suffix` exactly when `symbol suffix` is a branch,
/// and it holds no symbol twice when no branch occurs twice.
pub proof fn lemma_second_symbols_of(branches: Seq<RuleRight>, symbol: Symbol)
    ensures
        forall|suffix: Symbol|
            second_symbols_of(branches, symbol).contains(suffix) <==> branches.contains(
                RuleRight(symbol, suffix),
            ),
        branches.no_duplicates() ==> second_symbols_of(branches, symbol).no_duplicates(),
    decreases branches.len(),
{
    if branches.len() > 0 {
        let front = branches.drop_last();
        let last = branches.last();
        lemma_second_symbols_of(front, symbol);
        let before = second_symbols_of(front, symbol);
        let after = second_symbols_of(branches, symbol);
        assert forall|suffix: Symbol|
            after.contains(suffix) <==> branches.contains(RuleRight(symbol, suffix)) by {
            let pair = RuleRight(symbol, suffix);
            if front.contains(pair) {
                let i = front.index_of(pair);
                assert(branches[i] == pair);
            }
            if branches.contains(pair) {
                let i = branches.index_of(pair);
                if i < front.len() {
                    assert(front[i] == pair);
                }
            }
            if before.contains(suffix) {
                let i = before.index_of(suffix);
                assert(after[i] == suffix);
            }
            if last.0 == symbol {
                assert(after[before.len() as int] == last.1);
                assert(branches[branches.len() - 1] == last);
            }
        }
        if branches.no_duplicates() && last.0 == symbol {
            if before.contains(last.1) {
                let i = front.index_of(last);
                assert(branches[i] == branches[branches.len() - 1]);
            }
        }
    }
}

/// One left side with its binary right sides.
#[derive(Debug)]
pub struct Rule(Symbol, RuleRightSet);

impl View for Rule {
    type V = (Symbol, Seq<RuleRight>);

    closed spec fn view(&self) -> (Symbol, Seq<RuleRight>) {
        (self.0, self.1@)
    }
}

impl Rule {
    /// No right side is held twice.
    pub open spec fn wf(&self) -> bool {
        self@.1.no_duplicates()
    }

    pub fn new(left: Symbol, right: RuleRightSet) -> (rule: Rule)
        requires
            right.wf(),
        ensures
            rule.wf(),
            rule@ == (left, right@),
    {
        Rule(left, right)
    }

    /// The symbols that stand first on a right side, and `None` when there is
    /// no right side.
    pub fn first(&self) -> (found: Option<SymbolSet>)
        ensures
            answers(found, first_symbols_of(self@.1)),
            found matches Some(set) ==> set.wf(),
    {
        let mut result = SymbolSet::new();

        let mut i: usize = 0;
        while i < self.1.len()
            invariant
                i <= self.1@.len(),
                result.wf(),
                result@ == first_symbols_of(self.1@.take(i as int)),
            decreases self.1@.len() - i,
        {
            if let Some(branch) = self.1.get(i) {
                result.insert(branch.0);
            }
            assert(self.1@.take(i + 1).drop_last() == self.1@.take(i as int));
            i += 1;
        }
        assert(self.1@.take(i as int) == self.1@);

        if !result.is_empty() {
            Some(result)
        } else {
            None
        }
    }

    /// The symbols that stand second on a right side behind `symbol`, and
    /// `None` when there is none.
    pub fn follow(&self, symbol: Symbol) -> (found: Option<Vec<Symbol>>)
        ensures
            match found {
                Some(symbols) => symbols@ == second_symbols_of(self@.1, symbol) && symbols@.len()
                    > 0,
                None => second_symbols_of(self@.1, symbol).len() == 0,
            },
            self.wf() ==> second_symbols_of(self@.1, symbol).no_duplicates(),
    {
        proof {
            lemma_second_symbols_of(self@.1, symbol);
        }
        let mut result: Vec<Symbol> = Vec::new();

        let mut i: usize = 0;
        while i < self.1.len()
            invariant
                i <= self.1@.len(),
                result@ == second_symbols_of(self.1@.take(i as int), symbol),
            decreases self.1@.len() - i,
        {
            if let Some(branch) = self.1.get(i) {
                if branch.0 == symbol {
                    result.push(branch.1);
                }
            }
            assert(self.1@.take(i + 1).drop_last() == self.1@.take(i as int));
            i += 1;
        }
        assert(self.1@.take(i as int) == self.1@);

        if result.len() > 0 {
            Some(result)
        } else {
            None
        }
    }

    pub fn start(&self) -> (left: Symbol)
        ensures
            left == self@.0,
    {
        self.0
    }

    pub fn start_with(&self, symbol: Symbol) -> (same: bool)
        ensures
            same == (self@.0 == symbol),
    {
        self.0 == symbol
    }

    /// The left side, if `base suffix` is one of the right sides.
    pub fn derive(&self, base: Symbol, suffix: Symbol) -> (parent: Option<Symbol>)
        ensures
            parent == (if self@.1.contains(RuleRight(base, suffix)) {
                Some(self@.0)
            } else {
                None
            }),
    {
        proof {
            lemma_second_symbols_of(self@.1, base);
        }
        match self.follow(base) {
            Some(symbols) => {
                if vec_contains(&symbols, suffix) {
                    Some(self.0)
                } else {
                    None
                }
            },
            None => {
                assert(!second_symbols_of(self@.1, base).contains(suffix));
                None
            },
        }
    }
}

/// Whether `symbols` holds `symbol`.
fn vec_contains(symbols: &Vec<Symbol>, symbol: Symbol) -> (found: bool)
    ensures
        found == symbols@.contains(symbol),
{
    let mut i: usize = 0;
    while i < symbols.len()
        invariant
            i <= symbols@.len(),
            forall|j: int| 0 <= j < i ==> symbols@[j] != symbol,
        decreases symbols@.len() - i,
    {
        if symbols[i] == symbol {
            return true;
        }
        i += 1;
    }
    false
}

/// The symbols that stand first on a right side of a rule of `symbol`, each
/// once, in the order of the rules.
pub open spec fn first_symbols_in(rules: Seq<(Symbol, Seq<RuleRight>)>, symbol: Symbol) -> Seq<
    Symbol,
>
    decreases rules.len(),
{
    if rules.len() == 0 {
        Seq::empty()
    } else if rules.last().0 == symbol {
        append_distinct(
            first_symbols_in(rules.drop_last(), symbol),
            first_symbols_of(rules.last().1),
        )
    } else {
        first_symbols_in(rules.drop_last(), symbol)
    }
}

/// The symbols that stand second on a right side of any rule behind `base`,
/// each once, in the order of the rules.
pub open spec fn successors_in(rules: Seq<(Symbol, Seq<RuleRight>)>, base: Symbol) -> Seq<Symbol>
    decreases rules.len(),
{
    if rules.len() == 0 {
        Seq::empty()
    } else {
        append_distinct(
            successors_in(rules.drop_last(), base),
            second_symbols_of(rules.last().1, base),
        )
    }
}

/// The left sides of the rules that have the right side `base suffix`, each
/// once, in the order of the rules.
pub open spec fn parents_in(
    rules: Seq<(Symbol, Seq<RuleRight>)>,
    base: Symbol,
    suffix: Symbol,
) -> Seq<Symbol>
    decreases rules.len(),
{
    if rules.len() == 0 {
        Seq::empty()
    } else if rules.last().1.contains(RuleRight(base, suffix)) {
        insert_distinct(parents_in(rules.drop_last(), base, suffix), rules.last().0)
    } else {
        parents_in(rules.drop_last(), base, suffix)
    }
}

/// The left sides of the unit rules that have the right side `terminal`, each
/// once, in the order of the rules.
pub open spec fn unit_parents_in(rules: Seq<(Symbol, Seq<Symbol>)>, terminal: Symbol) -> Seq<
    Symbol,
>
    decreases rules.len(),
{
    if rules.len() == 0 {
        Seq::empty()
    } else if rules.last().1.contains(terminal) {
        insert_distinct(unit_parents_in(rules.drop_last(), terminal), rules.last().0)
    } else {
        unit_parents_in(rules.drop_last(), terminal)
    }
}

/// `rules` holds the binary rule `left -> base suffix`.
pub open spec fn has_rule(
    rules: Seq<(Symbol, Seq<RuleRight>)>,
    left: Symbol,
    base: Symbol,
    suffix: Symbol,
) -> bool {
    exists|i: int|
        0 <= i < rules.len() && (#[trigger] rules[i]).0 == left && rules[i].1.contains(
            RuleRight(base, suffix),
        )
}

/// `rules` holds the unit rule `left -> terminal`.
pub open spec fn has_unit_rule(
    rules: Seq<(Symbol, Seq<Symbol>)>,
    left: Symbol,
    terminal: Symbol,
) -> bool {
    exists|i: int|
        0 <= i < rules.len() && (#[trigger] rules[i]).0 == left && rules[i].1.contains(terminal)
}

/// A binary rule is among `rules` when it is the last of them or among those
/// before it.
pub proof fn lemma_has_rule_step(
    rules: Seq<(Symbol, Seq<RuleRight>)>,
    left: Symbol,
    base: Symbol,
    suffix: Symbol,
)
    requires
        rules.len() > 0,
    ensures
        has_rule(rules, left, base, suffix) <==> has_rule(rules.drop_last(), left, base, suffix)
            || (rules.last().0 == left && rules.last().1.contains(RuleRight(base, suffix))),
{
    let front = rules.drop_last();
    let pair = RuleRight(base, suffix);
    if has_rule(front, left, base, suffix) {
        let i = choose|i: int|
            0 <= i < front.len() && (#[trigger] front[i]).0 == left && front[i].1.contains(pair);
        assert(rules[i] == front[i]);
    }
    if rules.last().0 == left && rules.last().1.contains(pair) {
        assert(rules[rules.len() - 1] == rules.last());
    }
    if has_rule(rules, left, base, suffix) {
        let i = choose|i: int|
            0 <= i < rules.len() && (#[trigger] rules[i]).0 == left && rules[i].1.contains(pair);
        if i < front.len() {
            assert(front[i] == rules[i]);
        }
    }
}

/// A unit rule is among `rules` when it is the last of them or among those
/// before it.
pub proof fn lemma_has_unit_rule_step(
    rules: Seq<(Symbol, Seq<Symbol>)>,
    left: Symbol,
    terminal: Symbol,
)
    requires
        rules.len() > 0,
    ensures
        has_unit_rule(rules, left, terminal) <==> has_unit_rule(rules.drop_last(), left, terminal)
            || (rules.last().0 == left && rules.last().1.contains(terminal)),
{
    let front = rules.drop_last();
    if has_unit_rule(front, left, terminal) {
        let i = choose|i: int|
            0 <= i < front.len() && (#[trigger] front[i]).0 == left && front[i].1.contains(
                terminal,
            );
        assert(rules[i] == front[i]);
    }
    if rules.last().0 == left && rules.last().1.contains(terminal) {
        assert(rules[rules.len() - 1] == rules.last());
    }
    if has_unit_rule(rules, left, terminal) {
        let i = choose|i: int|
            0 <= i < rules.len() && (#[trigger] rules[i]).0 == left && rules[i].1.contains(
                terminal,
            );
        if i < front.len() {
            assert(front[i] == rules[i]);
        }
    }
}

/// `first_symbols_of` holds each first symbol of the branches once, and no
/// other symbol.
pub proof fn lemma_first_symbols_of(branches: Seq<RuleRight>)
    ensures
        first_symbols_of(branches).no_duplicates(),
        forall|base: Symbol|
            first_symbols_of(branches).contains(base) <==> exists|j: int|
                0 <= j < branches.len() && (#[trigger] branches[j]).0 == base,
    decreases branches.len(),
{
    if branches.len() > 0 {
        let front = branches.drop_last();
        lemma_first_symbols_of(front);
        lemma_insert_distinct(first_symbols_of(front), branches.last().0);
        assert forall|base: Symbol|
            first_symbols_of(branches).contains(base) <==> exists|j: int|
                0 <= j < branches.len() && (#[trigger] branches[j]).0 == base by {
            if first_symbols_of(front).contains(base) {
                let j = choose|j: int| 0 <= j < front.len() && (#[trigger] front[j]).0 == base;
                assert(branches[j] == front[j]);
            }
            if base == branches.last().0 {
                assert(branches[branches.len() - 1].0 == base);
            }
            if exists|j: int| 0 <= j < branches.len() && (#[trigger] branches[j]).0 == base {
                let j = choose|j: int| 0 <= j < branches.len() && (#[trigger] branches[j]).0 == base;
                if j < front.len() {
                    assert(front[j] == branches[j]);
                }
            }
        }
    }
}

/// The parents of a pair are the left sides of the rules with that right
/// side, each once.
pub proof fn lemma_parents_in(rules: Seq<(Symbol, Seq<RuleRight>)>, base: Symbol, suffix: Symbol)
    ensures
        parents_in(rules, base, suffix).no_duplicates(),
        forall|left: Symbol|
            parents_in(rules, base, suffix).contains(left) <==> has_rule(rules, left, base, suffix),
    decreases rules.len(),
{
    if rules.len() > 0 {
        let front = rules.drop_last();
        lemma_parents_in(front, base, suffix);
        lemma_insert_distinct(parents_in(front, base, suffix), rules.last().0);
        assert forall|left: Symbol|
            parents_in(rules, base, suffix).contains(left) <==> has_rule(
                rules,
                left,
                base,
                suffix,
            ) by {
            lemma_has_rule_step(rules, left, base, suffix);
        }
    }
}

/// The successors of a symbol are the symbols that stand behind it on the
/// right side of some rule, each once.
pub proof fn lemma_successors_in(rules: Seq<(Symbol, Seq<RuleRight>)>, base: Symbol)
    ensures
        successors_in(rules, base).no_duplicates(),
        forall|suffix: Symbol|
            successors_in(rules, base).contains(suffix) <==> exists|left: Symbol|
                has_rule(rules, left, base, suffix),
    decreases rules.len(),
{
    if rules.len() > 0 {
        let front = rules.drop_last();
        let last = rules.last();
        lemma_successors_in(front, base);
        lemma_append_distinct(successors_in(front, base), second_symbols_of(last.1, base));
        lemma_second_symbols_of(last.1, base);
        assert forall|suffix: Symbol|
            successors_in(rules, base).contains(suffix) <==> exists|left: Symbol|
                has_rule(rules, left, base, suffix) by {
            if successors_in(front, base).contains(suffix) {
                let left = choose|left: Symbol| has_rule(front, left, base, suffix);
                lemma_has_rule_step(rules, left, base, suffix);
            }
            if last.1.contains(RuleRight(base, suffix)) {
                lemma_has_rule_step(rules, last.0, base, suffix);
            }
            if exists|left: Symbol| has_rule(rules, left, base, suffix) {
                let left = choose|left: Symbol| has_rule(rules, left, base, suffix);
                lemma_has_rule_step(rules, left, base, suffix);
            }
        }
    }
}

/// The first symbols of a left side are the symbols that stand first on the
/// right side of one of its rules, each once.
pub proof fn lemma_first_symbols_in(rules: Seq<(Symbol, Seq<RuleRight>)>, left: Symbol)
    ensures
        first_symbols_in(rules, left).no_duplicates(),
        forall|base: Symbol|
            first_symbols_in(rules, left).contains(base) <==> exists|suffix: Symbol|
                has_rule(rules, left, base, suffix),
    decreases rules.len(),
{
    if rules.len() > 0 {
        let front = rules.drop_last();
        let last = rules.last();
        lemma_first_symbols_in(front, left);
        lemma_append_distinct(first_symbols_in(front, left), first_symbols_of(last.1));
        lemma_first_symbols_of(last.1);
        assert forall|base: Symbol|
            first_symbols_in(rules, left).contains(base) <==> exists|suffix: Symbol|
                has_rule(rules, left, base, suffix) by {
            if first_symbols_in(front, left).contains(base) {
                let suffix = choose|suffix: Symbol| has_rule(front, left, base, suffix);
                lemma_has_rule_step(rules, left, base, suffix);
            }
            if last.0 == left && first_symbols_of(last.1).contains(base) {
                let j = choose|j: int| 0 <= j < last.1.len() && (#[trigger] last.1[j]).0 == base;
                let suffix = last.1[j].1;
                assert(last.1[j] == RuleRight(base, suffix));
                lemma_has_rule_step(rules, left, base, suffix);
            }
            if exists|suffix: Symbol| has_rule(rules, left, base, suffix) {
                let suffix = choose|suffix: Symbol| has_rule(rules, left, base, suffix);
                lemma_has_rule_step(rules, left, base, suffix);
                if last.0 == left && last.1.contains(RuleRight(base, suffix)) {
                    let j = last.1.index_of(RuleRight(base, suffix));
                    assert(last.1[j].0 == base);
                }
            }
        }
    }
}

/// The parents of a terminal are the left sides of the unit rules that
/// rewrite to it, each once.
pub proof fn lemma_unit_parents_in(rules: Seq<(Symbol, Seq<Symbol>)>, terminal: Symbol)
    ensures
        unit_parents_in(rules, terminal).no_duplicates(),
        forall|left: Symbol|
            unit_parents_in(rules, terminal).contains(left) <==> has_unit_rule(
                rules,
                left,
                terminal,
            ),
    decreases rules.len(),
{
    if rules.len() > 0 {
        let front = rules.drop_last();
        lemma_unit_parents_in(front, terminal);
        lemma_insert_distinct(unit_parents_in(front, terminal), rules.last().0);
        assert forall|left: Symbol|
            unit_parents_in(rules, terminal).contains(left) <==> has_unit_rule(
                rules,
                left,
                terminal,
            ) by {
            lemma_has_unit_rule_step(rules, left, terminal);
        }
    }
}

/// Wherever a pair has a parent, its second symbol is a successor of its
/// first: asking for the successors first never hides a rule.
pub proof fn lemma_parents_are_successors(
    rules: Seq<(Symbol, Seq<RuleRight>)>,
    base: Symbol,
    suffix: Symbol,
)
    requires
        parents_in(rules, base, suffix).len() > 0,
    ensures
        successors_in(rules, base).contains(suffix),
{
    lemma_parents_in(rules, base, suffix);
    lemma_successors_in(rules, base);
    let left = parents_in(rules, base, suffix)[0];
    assert(parents_in(rules, base, suffix).contains(left));
    assert(has_rule(rules, left, base, suffix));
}

/// The binary rules of a grammar, in the order in which they were inserted.
#[derive(Debug)]
pub struct Rules(Vec<Rule>);

impl View for Rules {
    type V = Seq<(Symbol, Seq<RuleRight>)>;

    closed spec fn view(&self) -> Seq<(Symbol, Seq<RuleRight>)> {
        self.0@.map_values(|rule: Rule| rule@)
    }
}

impl Default for Rules {
    fn default() -> (rules: Rules)
        ensures
            rules.wf(),
            rules@ == Seq::<(Symbol, Seq<RuleRight>)>::empty(),
    {
        Rules::new()
    }
}

impl Rules {
    /// No rule holds a right side twice.
    pub open spec fn wf(&self) -> bool {
        forall|i: int| 0 <= i < self@.len() ==> (#[trigger] self@[i]).1.no_duplicates()
    }

    pub fn new() -> (rules: Rules)
        ensures
            rules.wf(),
            rules@ == Seq::<(Symbol, Seq<RuleRight>)>::empty(),
    {
        let rules: Vec<Rule> = Vec::new();
        let rules = Rules(rules);
        assert(rules@ == Seq::<(Symbol, Seq<RuleRight>)>::empty());
        rules
    }

    /// Adds the rules `left -> first second` for each pair of `right`.
    pub fn insert(&mut self, left: Symbol, right: RuleRightSet)
        requires
            old(self).wf(),
            right.wf(),
        ensures
            final(self).wf(),
            final(self)@ == old(self)@.push((left, right@)),
    {
        self.0.push(Rule::new(left, right));
        assert(self@ == old(self)@.push((left, right@)));
    }

    /// The symbols that stand first on a right side of a rule of `symbol`, and
    /// `None` when there is none.
    pub fn first(&self, symbol: Symbol) -> (found: Option<SymbolSet>)
        ensures
            answers(found, first_symbols_in(self@, symbol)),
            found matches Some(set) ==> set.wf(),
    {
        let mut result = SymbolSet::new();

        let mut i: usize = 0;
        while i < self.0.len()
            invariant
                i <= self.0@.len(),
                result.wf(),
                result@ == first_symbols_in(self@.take(i as int), symbol),
            decreases self.0@.len() - i,
        {
            let rule = &self.0[i];
            assert(self@.take(i + 1).drop_last() == self@.take(i as int));
            assert(self@.take(i + 1).last() == rule@);
            if rule.start_with(symbol) {
                if let Some(symbols) = rule.first() {
                    result.extend(&symbols);
                }
            }
            i += 1;
        }
        assert(self@.take(i as int) == self@);

        if !result.is_empty() {
            Some(result)
        } else {
            None
        }
    }

    /// The symbols that may stand second behind `symbol` on the right side of
    /// a rule, and `None` when there is none.
    pub fn follow(&self, symbol: Symbol) -> (found: Option<SymbolSet>)
        ensures
            answers(found, successors_in(self@, symbol)),
            found matches Some(set) ==> set.wf(),
    {
        let mut result = SymbolSet::new();

        let mut i: usize = 0;
        while i < self.0.len()
            invariant
                i <= self.0@.len(),
                result.wf(),
                result@ == successors_in(self@.take(i as int), symbol),
            decreases self.0@.len() - i,
        {
            let rule = &self.0[i];
            assert(self@.take(i + 1).drop_last() == self@.take(i as int));
            assert(self@.take(i + 1).last() == rule@);
            if let Some(symbols) = rule.follow(symbol) {
                result.extend_from_vec(&symbols);
            }
            i += 1;
        }
        assert(self@.take(i as int) == self@);

        if !result.is_empty() {
            Some(result)
        } else {
            None
        }
    }

    /// The left sides of the rules with the right side `base suffix`, and
    /// `None` when there is none.
    pub fn derive(&self, base: Symbol, suffix: Symbol) -> (found: Option<SymbolSet>)
        ensures
            answers(found, parents_in(self@, base, suffix)),
            found matches Some(set) ==> set.wf(),
    {
        let mut result = SymbolSet::new();

        let mut i: usize = 0;
        while i < self.0.len()
            invariant
                i <= self.0@.len(),
                result.wf(),
                result@ == parents_in(self@.take(i as int), base, suffix),
            decreases self.0@.len() - i,
        {
            let rule = &self.0[i];
            assert(self@.take(i + 1).drop_last() == self@.take(i as int));
            assert(self@.take(i + 1).last() == rule@);
            if let Some(symbol) = rule.derive(base, suffix) {
                result.insert(symbol);
            }
            i += 1;
        }
        assert(self@.take(i as int) == self@);

        if !result.is_empty() {
            Some(result)
        } else {
            None
        }
    }
}

/// One left side with the terminals that it rewrites to.
#[derive(Debug)]
pub struct TerminalRule(Symbol, SymbolSet);

impl View for TerminalRule {
    type V = (Symbol, Seq<Symbol>);

    closed spec fn view(&self) -> (Symbol, Seq<Symbol>) {
        (self.0, self.1@)
    }
}

impl TerminalRule {
    pub fn new(left: Symbol, right: SymbolSet) -> (rule: TerminalRule)
        ensures
            rule@ == (left, right@),
    {
        TerminalRule(left, right)
    }

    pub fn start(&self) -> (left: Symbol)
        ensures
            left == self@.0,
    {
        self.0
    }

    /// The left side, if `base` is one of the terminals.
    pub fn derive(&self, base: Symbol) -> (parent: Option<Symbol>)
        ensures
            parent == (if self@.1.contains(base) {
                Some(self@.0)
            } else {
                None
            }),
    {
        let mut i: usize = 0;
        while i < self.1.len()
            invariant
                i <= self.1@.len(),
                forall|j: int| 0 <= j < i ==> self.1@[j] != base,
            decreases self.1@.len() - i,
        {
            if let Some(symbol) = self.1.get(i) {
                if symbol == base {
                    return Some(self.0);
                }
            }
            i += 1;
        }
        None
    }
}

/// The unit rules of a grammar, in the order in which they were inserted.
#[derive(Debug)]
pub struct TerminalRules(Vec<TerminalRule>);

impl View for TerminalRules {
    type V = Seq<(Symbol, Seq<Symbol>)>;

    closed spec fn view(&self) -> Seq<(Symbol, Seq<Symbol>)> {
        self.0@.map_values(|rule: TerminalRule| rule@)
    }
}

impl Default for TerminalRules {
    fn default() -> (rules: TerminalRules)
        ensures
            rules@ == Seq::<(Symbol, Seq<Symbol>)>::empty(),
    {
        TerminalRules::new()
    }
}

impl TerminalRules {
    pub fn new() -> (rules: TerminalRules)
        ensures
            rules@ == Seq::<(Symbol, Seq<Symbol>)>::empty(),
    {
        let rules: Vec<TerminalRule> = Vec::new();
        let rules = TerminalRules(rules);
        assert(rules@ == Seq::<(Symbol, Seq<Symbol>)>::empty());
        rules
    }

    /// Adds the rules `left -> terminal` for each symbol of `right`.
    pub fn insert(&mut self, left: Symbol, right: SymbolSet)
        ensures
            final(self)@ == old(self)@.push((left, right@)),
    {
        self.0.push(TerminalRule::new(left, right));
        assert(self@ == old(self)@.push((left, right@)));
    }

    /// The left sides of the rules that rewrite to `base`, and `None` when
    /// there is none.
    pub fn derive(&self, base: Symbol) -> (found: Option<SymbolSet>)
        ensures
            answers(found, unit_parents_in(self@, base)),
            found matches Some(set) ==> set.wf(),
    {
        let mut result = SymbolSet::new();

        let mut i: usize = 0;
        while i < self.0.len()
            invariant
                i <= self.0@.len(),
                result.wf(),
                result@ == unit_parents_in(self@.take(i as int), base),
            decreases self.0@.len() - i,
        {
            let rule = &self.0[i];
            assert(self@.take(i + 1).drop_last() == self@.take(i as int));
            assert(self@.take(i + 1).last() == rule@);
            if let Some(symbol) = rule.derive(base) {
                result.insert(symbol);
            }
            i += 1;
        }
        assert(self@.take(i as int) == self@);

        if !result.is_empty() {
            Some(result)
        } else {
            None
        }
    }
}

/// Every symbol of `symbols` is one of `allowed`.
pub open spec fn each_in(symbols: Seq<Symbol>, allowed: Seq<Symbol>) -> bool {
    forall|i: int| 0 <= i < symbols.len() ==> allowed.contains(#[trigger] symbols[i])
}

/// No symbol of `symbols` is one of `others`.
pub open spec fn none_in(symbols: Seq<Symbol>, others: Seq<Symbol>) -> bool {
    forall|i: int| 0 <= i < symbols.len() ==> !others.contains(#[trigger] symbols[i])
}

/// What a grammar is made of: the start symbol, the declared symbols, the
/// binary rules and the unit rules, each rule as its left side with its right
/// sides.
pub struct GrammarView {
    pub start: Symbol,
    pub terminals: Seq<Symbol>,
    pub non_terminals: Seq<Symbol>,
    pub rules: Seq<(Symbol, Seq<RuleRight>)>,
    pub terminal_rules: Seq<(Symbol, Seq<Symbol>)>,
}

impl GrammarView {
    /// `symbol` is declared as a terminal or as a non-terminal.
    pub open spec fn declared(self, symbol: Symbol) -> bool {
        self.terminals.contains(symbol) || self.non_terminals.contains(symbol)
    }

    /// Both symbols of every pair of `branches` are declared.
    pub open spec fn branches_declared(self, branches: Seq<RuleRight>) -> bool {
        forall|j: int|
            0 <= j < branches.len() ==> self.declared((#[trigger] branches[j]).0) && self.declared(
                branches[j].1,
            )
    }

    /// Every symbol of `symbols` is declared.
    pub open spec fn each_declared(self, symbols: Seq<Symbol>) -> bool {
        forall|j: int| 0 <= j < symbols.len() ==> self.declared(#[trigger] symbols[j])
    }

    /// The start symbol is a declared non-terminal.
    pub open spec fn start_declared(self) -> bool {
        self.non_terminals.contains(self.start)
    }

    /// No symbol is declared both as a terminal and as a non-terminal.
    pub open spec fn disjoint(self) -> bool {
        none_in(self.terminals, self.non_terminals)
    }

    /// The left side of every rule is a declared non-terminal.
    pub open spec fn lefts_declared(self) -> bool {
        &&& forall|i: int|
            0 <= i < self.rules.len() ==> self.non_terminals.contains((#[trigger] self.rules[i]).0)
        &&& forall|i: int|
            0 <= i < self.terminal_rules.len() ==> self.non_terminals.contains(
                (#[trigger] self.terminal_rules[i]).0,
            )
    }

    /// Every symbol on the right side of a rule is declared.
    pub open spec fn rights_declared(self) -> bool {
        &&& forall|i: int|
            0 <= i < self.rules.len() ==> self.branches_declared((#[trigger] self.rules[i]).1)
        &&& forall|i: int|
            0 <= i < self.terminal_rules.len() ==> self.each_declared(
                (#[trigger] self.terminal_rules[i]).1,
            )
    }

    /// The right side of every unit rule is a terminal.
    pub open spec fn units_terminal(self) -> bool {
        forall|i: int|
            0 <= i < self.terminal_rules.len() ==> each_in(
                (#[trigger] self.terminal_rules[i]).1,
                self.terminals,
            )
    }

    /// The first reason to refuse the grammar, if there is one.
    pub open spec fn defect(self) -> Option<GrammarError> {
        if !self.start_declared() {
            Some(GrammarError::UndeclaredStart)
        } else if !self.disjoint() {
            Some(GrammarError::DeclaredTwice)
        } else if !self.lefts_declared() {
            Some(GrammarError::UndeclaredLeft)
        } else if !self.rights_declared() {
            Some(GrammarError::UndeclaredRight)
        } else if !self.units_terminal() {
            Some(GrammarError::UnitNotTerminal)
        } else {
            None
        }
    }

    /// The declarations and the rules agree.
    pub open spec fn valid(self) -> bool {
        self.defect() is None
    }
}

/// A grammar in Chomsky normal form whose declarations and rules agree.
#[derive(Debug)]
pub struct CNF {
    start: Symbol,
    terminals: SymbolSet,
    non_terminals: SymbolSet,
    rules: Rules,
    terminal_rules: TerminalRules,
}

impl View for CNF {
    type V = GrammarView;

    closed spec fn view(&self) -> GrammarView {
        GrammarView {
            start: self.start,
            terminals: self.terminals@,
            non_terminals: self.non_terminals@,
            rules: self.rules@,
            terminal_rules: self.terminal_rules@,
        }
    }
}

/// Whether no symbol of `symbols` is in `others`.
fn disjoint_sets(symbols: &SymbolSet, others: &SymbolSet) -> (disjoint: bool)
    ensures
        disjoint == none_in(symbols@, others@),
{
    let mut i: usize = 0;
    while i < symbols.len()
        invariant
            i <= symbols@.len(),
            forall|k: int| 0 <= k < i ==> !others@.contains(#[trigger] symbols@[k]),
        decreases symbols@.len() - i,
    {
        if let Some(symbol) = symbols.get(i) {
            if others.contains(&symbol) {
                return false;
            }
        }
        i += 1;
    }
    true
}

/// Whether every symbol of `symbols` is in `allowed`.
fn subset_of(symbols: &SymbolSet, allowed: &SymbolSet) -> (inside: bool)
    ensures
        inside == each_in(symbols@, allowed@),
{
    let mut i: usize = 0;
    while i < symbols.len()
        invariant
            i <= symbols@.len(),
            forall|k: int| 0 <= k < i ==> allowed@.contains(#[trigger] symbols@[k]),
        decreases symbols@.len() - i,
    {
        if let Some(symbol) = symbols.get(i) {
            if !allowed.contains(&symbol) {
                return false;
            }
        }
        i += 1;
    }
    true
}

impl CNF {
    /// The grammar view of the parts that a grammar is to be made of.
    pub open spec fn parts(
        start: Symbol,
        terminals: SymbolSet,
        non_terminals: SymbolSet,
        rules: Rules,
        terminal_rules: TerminalRules,
    ) -> GrammarView {
        GrammarView {
            start,
            terminals: terminals@,
            non_terminals: non_terminals@,
            rules: rules@,
            terminal_rules: terminal_rules@,
        }
    }

    /// The grammar of the given parts, or the first reason to refuse it: the
    /// start symbol, then the declarations, then the left sides, then the
    /// right sides of the rules are checked.
    pub fn new(
        start: Symbol,
        terminals: SymbolSet,
        non_terminals: SymbolSet,
        rules: Rules,
        terminal_rules: TerminalRules,
    ) -> (result: Result<CNF, GrammarError>)
        ensures
            match CNF::parts(start, terminals, non_terminals, rules, terminal_rules).defect() {
                Some(error) => result == Err::<CNF, GrammarError>(error),
                None => result matches Ok(grammar) && grammar@ == CNF::parts(
                    start,
                    terminals,
                    non_terminals,
                    rules,
                    terminal_rules,
                ),
            },
            result matches Ok(grammar) ==> grammar@.valid(),
    {
        let grammar = CNF { start, terminals, non_terminals, rules, terminal_rules };
        if !grammar.non_terminals.contains(&grammar.start) {
            return Err(GrammarError::UndeclaredStart);
        }
        if !disjoint_sets(&grammar.terminals, &grammar.non_terminals) {
            return Err(GrammarError::DeclaredTwice);
        }
        if !grammar.lefts_declared() {
            return Err(GrammarError::UndeclaredLeft);
        }
        if !grammar.rights_declared() {
            return Err(GrammarError::UndeclaredRight);
        }
        if !grammar.units_terminal() {
            return Err(GrammarError::UnitNotTerminal);
        }
        Ok(grammar)
    }

    fn is_declared(&self, symbol: Symbol) -> (declared: bool)
        ensures
            declared == self@.declared(symbol),
    {
        self.terminals.contains(&symbol) || self.non_terminals.contains(&symbol)
    }

    fn lefts_declared(&self) -> (declared: bool)
        ensures
            declared == self@.lefts_declared(),
    {
        let mut i: usize = 0;
        while i < self.rules.0.len()
            invariant
                i <= self.rules@.len(),
                forall|k: int|
                    0 <= k < i ==> self.non_terminals@.contains((#[trigger] self.rules@[k]).0),
            decreases self.rules@.len() - i,
        {
            assert(self.rules@[i as int] == self.rules.0@[i as int]@);
            if !self.non_terminals.contains(&self.rules.0[i].start()) {
                assert(!self@.non_terminals.contains(self@.rules[i as int].0));
                return false;
            }
            i += 1;
        }
        let mut i: usize = 0;
        while i < self.terminal_rules.0.len()
            invariant
                i <= self.terminal_rules@.len(),
                forall|k: int|
                    0 <= k < self.rules@.len() ==> self.non_terminals@.contains(
                        (#[trigger] self.rules@[k]).0,
                    ),
                forall|k: int|
                    0 <= k < i ==> self.non_terminals@.contains(
                        (#[trigger] self.terminal_rules@[k]).0,
                    ),
            decreases self.terminal_rules@.len() - i,
        {
            assert(self.terminal_rules@[i as int] == self.terminal_rules.0@[i as int]@);
            if !self.non_terminals.contains(&self.terminal_rules.0[i].start()) {
                assert(!self@.non_terminals.contains(self@.terminal_rules[i as int].0));
                return false;
            }
            i += 1;
        }
        true
    }

    fn branches_declared(&self, branches: &RuleRightSet) -> (declared: bool)
        ensures
            declared == self@.branches_declared(branches@),
    {
        let mut j: usize = 0;
        while j < branches.len()
            invariant
                j <= branches@.len(),
                forall|k: int|
                    0 <= k < j ==> self@.declared((#[trigger] branches@[k]).0) && self@.declared(
                        branches@[k].1,
                    ),
            decreases branches@.len() - j,
        {
            if let Some(branch) = branches.get(j) {
                if !self.is_declared(branch.0) || !self.is_declared(branch.1) {
                    return false;
                }
            }
            j += 1;
        }
        true
    }

    fn each_declared(&self, symbols: &SymbolSet) -> (declared: bool)
        ensures
            declared == self@.each_declared(symbols@),
    {
        let mut j: usize = 0;
        while j < symbols.len()
            invariant
                j <= symbols@.len(),
                forall|k: int| 0 <= k < j ==> self@.declared(#[trigger] symbols@[k]),
            decreases symbols@.len() - j,
        {
            if let Some(symbol) = symbols.get(j) {
                if !self.is_declared(symbol) {
                    return false;
                }
            }
            j += 1;
        }
        true
    }

    fn rights_declared(&self) -> (declared: bool)
        ensures
            declared == self@.rights_declared(),
    {
        let mut i: usize = 0;
        while i < self.rules.0.len()
            invariant
                i <= self.rules@.len(),
                forall|k: int|
                    0 <= k < i ==> self@.branches_declared((#[trigger] self.rules@[k]).1),
            decreases self.rules@.len() - i,
        {
            assert(self.rules@[i as int] == self.rules.0@[i as int]@);
            if !self.branches_declared(&self.rules.0[i].1) {
                assert(!self@.branches_declared(self@.rules[i as int].1));
                return false;
            }
            i += 1;
        }
        let mut i: usize = 0;
        while i < self.terminal_rules.0.len()
            invariant
                i <= self.terminal_rules@.len(),
                forall|k: int|
                    0 <= k < self.rules@.len() ==> self@.branches_declared(
                        (#[trigger] self.rules@[k]).1,
                    ),
                forall|k: int|
                    0 <= k < i ==> self@.each_declared((#[trigger] self.terminal_rules@[k]).1),
            decreases self.terminal_rules@.len() - i,
        {
            assert(self.terminal_rules@[i as int] == self.terminal_rules.0@[i as int]@);
            if !self.each_declared(&self.terminal_rules.0[i].1) {
                assert(!self@.each_declared(self@.terminal_rules[i as int].1));
                return false;
            }
            i += 1;
        }
        true
    }

    fn units_terminal(&self) -> (terminal: bool)
        ensures
            terminal == self@.units_terminal(),
    {
        let mut i: usize = 0;
        while i < self.terminal_rules.0.len()
            invariant
                i <= self.terminal_rules@.len(),
                forall|k: int|
                    0 <= k < i ==> each_in(
                        (#[trigger] self.terminal_rules@[k]).1,
                        self.terminals@,
                    ),
            decreases self.terminal_rules@.len() - i,
        {
            assert(self.terminal_rules@[i as int] == self.terminal_rules.0@[i as int]@);
            if !subset_of(&self.terminal_rules.0[i].1, &self.terminals) {
                assert(!each_in(self@.terminal_rules[i as int].1, self@.terminals));
                return false;
            }
            i += 1;
        }
        true
    }
}

impl Grammar for CNF {
    open spec fn start(&self) -> Symbol {
        self@.start
    }

    open spec fn terminals(&self) -> Set<Symbol> {
        Set::new(|symbol: Symbol| self@.terminals.contains(symbol))
    }

    open spec fn non_terminals(&self) -> Set<Symbol> {
        Set::new(|symbol: Symbol| self@.non_terminals.contains(symbol))
    }

    open spec fn first_symbols(&self, symbol: Symbol) -> Seq<Symbol> {
        first_symbols_in(self@.rules, symbol)
    }

    open spec fn successors_after(&self, base: Symbol) -> Seq<Symbol> {
        successors_in(self@.rules, base)
    }

    open spec fn binary_parents(&self, base: Symbol, suffix: Symbol) -> Seq<Symbol> {
        parents_in(self@.rules, base, suffix)
    }

    open spec fn unit_parents(&self, terminal: Symbol) -> Seq<Symbol> {
        unit_parents_in(self@.terminal_rules, terminal)
    }

    fn start_symbol(&self) -> (symbol: Symbol) {
        self.start
    }

    fn exist(&self, symbol: Symbol) -> (found: bool) {
        self.non_terminals.contains(&symbol) || self.terminals.contains(&symbol)
    }

    fn first(&self, symbol: Symbol) -> (found: Option<SymbolSet>) {
        self.rules.first(symbol)
    }

    fn follow(&self, symbol: Symbol) -> (found: Option<SymbolSet>) {
        self.rules.follow(symbol)
    }

    fn derive(&self, base: Symbol, suffix: Symbol) -> (found: Option<SymbolSet>) {
        self.rules.derive(base, suffix)
    }

    fn derive_single(&self, base: Symbol) -> (found: Option<SymbolSet>) {
        self.terminal_rules.derive(base)
    }

    fn is_terminal(&self, input: Symbol) -> (found: bool) {
        self.terminals.contains(&input)
    }

    fn is_non_terminal(&self, input: Symbol) -> (found: bool) {
        self.non_terminals.contains(&input)
    }
}

/// In a grammar of this kind the test for successors drops no node: a pair
/// of nodes yields one node for each rule that has their kinds as its right
/// side.
pub proof fn lemma_pair_nodes(grammar: &CNF, span: Span, base: Node, suffix: Node)
    ensures
        pair_nodes(grammar, span, base, suffix) == binary_nodes(
            grammar.binary_parents(base.kind, suffix.kind),
            span,
            base,
            suffix,
        ),
{
    if grammar.binary_parents(base.kind, suffix.kind).len() > 0 {
        lemma_parents_are_successors(grammar@.rules, base.kind, suffix.kind);
    }
}

} // verus!
