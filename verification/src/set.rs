//! Sets of symbols and of rule bodies that keep the order of insertion.

use crate::cnf::RuleRight;
use crate::symbol::Symbol;
use vstd::prelude::*;

verus! {

/// `items` with `symbol` added behind, unless it is there already.
pub open spec fn insert_distinct(items: Seq<Symbol>, symbol: Symbol) -> Seq<Symbol> {
    if items.contains(symbol) {
        items
    } else {
        items.push(symbol)
    }
}

/// `items` with each symbol of `more` added in turn, unless it is there already.
pub open spec fn append_distinct(items: Seq<Symbol>, more: Seq<Symbol>) -> Seq<Symbol>
    decreases more.len(),
{
    if more.len() == 0 {
        items
    } else {
        insert_distinct(append_distinct(items, more.drop_last()), more.last())
    }
}

/// Adding a symbol keeps the symbols distinct, keeps what was there, and adds
/// that symbol and no other.
pub proof fn lemma_insert_distinct(items: Seq<Symbol>, symbol: Symbol)
    requires
        items.no_duplicates(),
    ensures
        insert_distinct(items, symbol).no_duplicates(),
        items.is_prefix_of(insert_distinct(items, symbol)),
        forall|other: Symbol|
            insert_distinct(items, symbol).contains(other) <==> items.contains(other) || other
                == symbol,
{
    let after = insert_distinct(items, symbol);
    if !items.contains(symbol) {
        assert(after[items.len() as int] == symbol);
        assert forall|other: Symbol| items.contains(other) implies after.contains(other) by {
            let i = items.index_of(other);
            assert(after[i] == other);
        }
    }
}

/// Adding several symbols keeps the symbols distinct, keeps what was there, and
/// adds those symbols and no other.
pub proof fn lemma_append_distinct(items: Seq<Symbol>, more: Seq<Symbol>)
    requires
        items.no_duplicates(),
    ensures
        append_distinct(items, more).no_duplicates(),
        items.is_prefix_of(append_distinct(items, more)),
        forall|other: Symbol|
            append_distinct(items, more).contains(other) <==> items.contains(other)
                || more.contains(other),
    decreases more.len(),
{
    if more.len() > 0 {
        let before = append_distinct(items, more.drop_last());
        lemma_append_distinct(items, more.drop_last());
        lemma_insert_distinct(before, more.last());
        assert forall|other: Symbol| more.contains(other) <==> more.drop_last().contains(other)
            || other == more.last() by {
            if more.contains(other) {
                let i = more.index_of(other);
                if i < more.len() - 1 {
                    assert(more.drop_last()[i] == other);
                }
            }
            if more.drop_last().contains(other) {
                let i = more.drop_last().index_of(other);
                assert(more[i] == other);
            }
            assert(more[more.len() - 1] == more.last());
        }
    }
}

/// A set of symbols that keeps them in the order in which they were inserted.
#[derive(Debug)]
pub struct SymbolSet {
    items: Vec<Symbol>,
}

impl View for SymbolSet {
    type V = Seq<Symbol>;

    closed spec fn view(&self) -> Seq<Symbol> {
        self.items@
    }
}

impl Clone for SymbolSet {
    fn clone(&self) -> (copy: SymbolSet)
        ensures
            copy@ == self@,
    {
        let mut items: Vec<Symbol> = Vec::new();
        let mut i: usize = 0;
        while i < self.items.len()
            invariant
                i <= self.items@.len(),
                items@ == self.items@.take(i as int),
            decreases self.items@.len() - i,
        {
            items.push(self.items[i]);
            assert(self.items@.take(i + 1) == self.items@.take(i as int).push(self.items@[i as int]));
            i += 1;
        }
        assert(self.items@.take(i as int) == self.items@);
        SymbolSet { items }
    }
}

impl SymbolSet {
    /// No symbol is held twice.
    pub open spec fn wf(&self) -> bool {
        self@.no_duplicates()
    }

    pub fn new() -> (set: SymbolSet)
        ensures
            set.wf(),
            set@ == Seq::<Symbol>::empty(),
    {
        SymbolSet { items: Vec::new() }
    }

    pub fn len(&self) -> (len: usize)
        ensures
            len == self@.len(),
    {
        self.items.len()
    }

    pub fn is_empty(&self) -> (empty: bool)
        ensures
            empty == (self@.len() == 0),
    {
        self.items.len() == 0
    }

    /// The symbol inserted as number `index`, counting from zero.
    pub fn get(&self, index: usize) -> (symbol: Option<Symbol>)
        ensures
            symbol == (if index < self@.len() {
                Some(self@[index as int])
            } else {
                None
            }),
    {
        if index < self.items.len() {
            Some(self.items[index])
        } else {
            None
        }
    }

    pub fn contains(&self, symbol: &Symbol) -> (found: bool)
        ensures
            found == self@.contains(*symbol),
    {
        let mut i: usize = 0;
        while i < self.items.len()
            invariant
                i <= self.items@.len(),
                forall|j: int| 0 <= j < i ==> self.items@[j] != *symbol,
            decreases self.items@.len() - i,
        {
            if self.items[i] == *symbol {
                return true;
            }
            i += 1;
        }
        false
    }

    /// Adds `symbol` unless the set holds it; says whether it was added.
    pub fn insert(&mut self, symbol: Symbol) -> (added: bool)
        requires
            old(self).wf(),
        ensures
            final(self).wf(),
            final(self)@ == insert_distinct(old(self)@, symbol),
            added == !old(self)@.contains(symbol),
    {
        proof {
            lemma_insert_distinct(self@, symbol);
        }
        if self.contains(&symbol) {
            false
        } else {
            self.items.push(symbol);
            true
        }
    }

    /// Adds each symbol of `other` in turn.
    pub fn extend(&mut self, other: &SymbolSet)
        requires
            old(self).wf(),
        ensures
            final(self).wf(),
            final(self)@ == append_distinct(old(self)@, other@),
    {
        let mut i: usize = 0;
        while i < other.items.len()
            invariant
                i <= other@.len(),
                self.wf(),
                self@ == append_distinct(old(self)@, other@.take(i as int)),
            decreases other@.len() - i,
        {
            assert(other@.take(i + 1).drop_last() == other@.take(i as int));
            self.insert(other.items[i]);
            i += 1;
        }
        assert(other@.take(i as int) == other@);
    }

    /// Adds each symbol of `symbols` in turn.
    pub fn extend_from_vec(&mut self, symbols: &Vec<Symbol>)
        requires
            old(self).wf(),
        ensures
            final(self).wf(),
            final(self)@ == append_distinct(old(self)@, symbols@),
    {
        let mut i: usize = 0;
        while i < symbols.len()
            invariant
                i <= symbols@.len(),
                self.wf(),
                self@ == append_distinct(old(self)@, symbols@.take(i as int)),
            decreases symbols@.len() - i,
        {
            assert(symbols@.take(i + 1).drop_last() == symbols@.take(i as int));
            self.insert(symbols[i]);
            i += 1;
        }
        assert(symbols@.take(i as int) == symbols@);
    }

    /// The symbols in the order of insertion.
    pub fn to_vec(&self) -> (symbols: Vec<Symbol>)
        ensures
            symbols@ == self@,
    {
        self.clone().items
    }
}

/// A set of rule bodies that keeps them in the order in which they were inserted.
#[derive(Debug)]
pub struct RuleRightSet {
    items: Vec<RuleRight>,
}

impl View for RuleRightSet {
    type V = Seq<RuleRight>;

    closed spec fn view(&self) -> Seq<RuleRight> {
        self.items@
    }
}

impl Clone for RuleRightSet {
    fn clone(&self) -> (copy: RuleRightSet)
        ensures
            copy@ == self@,
    {
        let mut items: Vec<RuleRight> = Vec::new();
        let mut i: usize = 0;
        while i < self.items.len()
            invariant
                i <= self.items@.len(),
                items@ == self.items@.take(i as int),
            decreases self.items@.len() - i,
        {
            items.push(self.items[i]);
            assert(self.items@.take(i + 1) == self.items@.take(i as int).push(self.items@[i as int]));
            i += 1;
        }
        assert(self.items@.take(i as int) == self.items@);
        RuleRightSet { items }
    }
}

impl RuleRightSet {
    /// No rule body is held twice.
    pub open spec fn wf(&self) -> bool {
        self@.no_duplicates()
    }

    pub fn new() -> (set: RuleRightSet)
        ensures
            set.wf(),
            set@ == Seq::<RuleRight>::empty(),
    {
        RuleRightSet { items: Vec::new() }
    }

    pub fn len(&self) -> (len: usize)
        ensures
            len == self@.len(),
    {
        self.items.len()
    }

    pub fn is_empty(&self) -> (empty: bool)
        ensures
            empty == (self@.len() == 0),
    {
        self.items.len() == 0
    }

    /// The rule body inserted as number `index`, counting from zero.
    pub fn get(&self, index: usize) -> (pair: Option<RuleRight>)
        ensures
            pair == (if index < self@.len() {
                Some(self@[index as int])
            } else {
                None
            }),
    {
        if index < self.items.len() {
            Some(self.items[index])
        } else {
            None
        }
    }

    pub fn contains(&self, pair: &RuleRight) -> (found: bool)
        ensures
            found == self@.contains(*pair),
    {
        let mut i: usize = 0;
        while i < self.items.len()
            invariant
                i <= self.items@.len(),
                forall|j: int| 0 <= j < i ==> self.items@[j] != *pair,
            decreases self.items@.len() - i,
        {
            if self.items[i] == *pair {
                return true;
            }
            i += 1;
        }
        false
    }

    /// Adds `pair` unless the set holds it; says whether it was added.
    pub fn insert(&mut self, pair: RuleRight) -> (added: bool)
        requires
            old(self).wf(),
        ensures
            final(self).wf(),
            final(self)@ == (if old(self)@.contains(pair) {
                old(self)@
            } else {
                old(self)@.push(pair)
            }),
            added == !old(self)@.contains(pair),
    {
        if self.contains(&pair) {
            false
        } else {
            self.items.push(pair);
            true
        }
    }
}

} // verus!
