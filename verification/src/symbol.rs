//! Interned names: every terminal, non-terminal and input character is a small
//! integer handle into a table of strings kept in first-seen order.

use rustc_hash::FxHashMap;
use vstd::prelude::*;
use vstd::string::StringExecFns;

verus! {

/// `core::hash::BuildHasherDefault`, the hasher factory that `FxHashMap` is built on.
/// Declared so that the map can stand in a field; nothing is claimed of it.
#[verifier::external_type_specification]
#[verifier::external_body]
#[verifier::reject_recursive_types(H)]
pub struct ExBuildHasherDefault<H>(core::hash::BuildHasherDefault<H>);

/// `rustc_hash::FxHasher`, the hash state behind `FxHashMap`.
/// Declared so that the map can stand in a field; nothing is claimed of it.
#[verifier::external_type_specification]
#[verifier::external_body]
pub struct ExFxHasher(rustc_hash::FxHasher);

/// What a name table holds: the text of each key, with the handle stored under it.
pub uninterp spec fn table_entries(table: FxHashMap<String, u32>) -> Map<Seq<char>, u32>;

/// `FxHashMap::default()`. Trusted: the fresh table has no entry.
#[verifier::external_body]
fn table_new() -> (table: FxHashMap<String, u32>)
    ensures
        table_entries(table).dom() == Set::<Seq<char>>::empty(),
{
    FxHashMap::default()
}

/// `HashMap::get` on a name table. Trusted: it returns the handle stored under
/// the key whose characters are those of `key`, and `None` when no key has them.
#[verifier::external_body]
fn table_get(table: &FxHashMap<String, u32>, key: &str) -> (found: Option<u32>)
    ensures
        found == (if table_entries(*table).dom().contains(key@) {
            Some(table_entries(*table)[key@])
        } else {
            None
        }),
{
    table.get(key).copied()
}

/// `HashMap::insert` on a name table. Trusted: afterwards `key` maps to `handle`
/// and every other entry is as it was.
#[verifier::external_body]
fn table_insert(table: &mut FxHashMap<String, u32>, key: String, handle: u32)
    ensures
        table_entries(*final(table)) == table_entries(*old(table)).insert(key@, handle),
{
    table.insert(key, handle);
}

/// `char::to_string`. Trusted: the result is the string of that one character.
#[verifier::external_body]
fn char_text(c: char) -> (text: String)
    ensures
        text@ == seq![c],
{
    c.to_string()
}

/// A handle for one interned string. Two symbols of the same interner are equal
/// exactly when their strings are.
#[derive(Clone, Copy, Debug, PartialEq, Eq, Structural, PartialOrd, Ord, Hash)]
pub struct Symbol(u32);

impl View for Symbol {
    type V = nat;

    /// The position of the symbol's string in its interner.
    closed spec fn view(&self) -> nat {
        self.0 as nat
    }
}

impl Symbol {
    fn new(n: u32) -> (symbol: Symbol)
        ensures
            symbol@ == n,
    {
        Symbol(n)
    }

    /// The symbol whose view is `index`.
    pub closed spec fn at(index: nat) -> Symbol {
        Symbol(index as u32)
    }

    /// A symbol is determined by its view.
    pub proof fn lemma_view_injective(a: Symbol, b: Symbol)
        ensures
            a@ == b@ <==> a == b,
            a@ <= u32::MAX,
            Symbol::at(a@) == a,
    {
    }

    /// `at` is inverse to the view on every index that a handle can hold.
    pub proof fn lemma_at_view(index: nat)
        requires
            index <= u32::MAX,
        ensures
            Symbol::at(index)@ == index,
    {
    }

    /// Maps a string to its interned representation, adding it to `interner`
    /// when it is not there yet.
    pub fn intern(interner: &mut Interner, string: &str) -> (symbol: Symbol)
        requires
            old(interner).wf(),
            old(interner)@.len() < u32::MAX,
        ensures
            final(interner).wf(),
            final(interner)@ == interned(old(interner)@, string@),
            final(interner).symbol_of(string@) == Some(symbol),
            symbol@ == position(old(interner)@, string@),
    {
        interner.intern(string)
    }

    /// The symbol of the one-character string `c`, if `interner` holds it.
    pub fn from_char(interner: &Interner, c: char) -> (symbol: Option<Symbol>)
        requires
            interner.wf(),
        ensures
            symbol == interner.symbol_of(seq![c]),
    {
        let text = char_text(c);
        interner.lookup(text.as_str())
    }

    /// The string that the symbol stands for.
    pub fn as_str(self, interner: &Interner) -> (text: &str)
        requires
            interner.has_symbol(self),
        ensures
            text@ == interner.text_of(self),
    {
        interner.get(self)
    }

    pub fn as_u32(self) -> (index: u32)
        ensures
            index == self@,
    {
        self.0
    }
}

/// Where `text` stands in `names` after it has been interned: its first
/// position if it occurs, the end otherwise.
pub open spec fn position(names: Seq<Seq<char>>, text: Seq<char>) -> nat {
    if names.contains(text) {
        names.index_of(text) as nat
    } else {
        names.len()
    }
}

/// The table of names after `text` has been interned.
pub open spec fn interned(names: Seq<Seq<char>>, text: Seq<char>) -> Seq<Seq<char>> {
    if names.contains(text) {
        names
    } else {
        names.push(text)
    }
}

/// The string table. Its view is the interned strings in first-seen order; the
/// handle of a string is its position there.
#[derive(Debug)]
pub struct Interner {
    names: FxHashMap<String, u32>,
    strings: Vec<String>,
}

impl View for Interner {
    type V = Seq<Seq<char>>;

    closed spec fn view(&self) -> Seq<Seq<char>> {
        self.strings@.map_values(|s: String| s@)
    }
}

impl Interner {
    /// No string is held twice, every handle fits in 32 bits, and the index by
    /// text agrees with the table.
    pub closed spec fn wf(&self) -> bool {
        &&& self@.len() <= u32::MAX
        &&& forall|i: int|
            0 <= i < self@.len() ==> table_entries(self.names).dom().contains(#[trigger] self@[i])
                && table_entries(self.names)[self@[i]] == i
        &&& forall|text: Seq<char>| #[trigger]
            table_entries(self.names).dom().contains(text) ==> table_entries(self.names)[text]
                < self@.len() && self@[table_entries(self.names)[text] as int] == text
    }

    /// The handle of `text`, if it has been interned.
    pub open spec fn symbol_of(&self, text: Seq<char>) -> Option<Symbol> {
        if self@.contains(text) {
            Some(Symbol::at(self@.index_of(text) as nat))
        } else {
            None
        }
    }

    /// Whether `symbol` is a handle that this interner has given out.
    pub open spec fn has_symbol(&self, symbol: Symbol) -> bool {
        symbol@ < self@.len()
    }

    /// The string behind `symbol`.
    pub open spec fn text_of(&self, symbol: Symbol) -> Seq<char> {
        self@[symbol@ as int]
    }

    /// In a well-formed interner no string occurs twice and the handles fit.
    pub proof fn lemma_wf(&self)
        requires
            self.wf(),
        ensures
            self@.no_duplicates(),
            self@.len() <= u32::MAX,
    {
        assert forall|i: int, j: int| 0 <= i < self@.len() && 0 <= j < self@.len() && i != j implies self@[i]
            != self@[j] by {
            assert(table_entries(self.names)[self@[i]] == i);
            assert(table_entries(self.names)[self@[j]] == j);
        }
    }

    /// Equal strings have the same handle, and the handle resolves to the string.
    pub proof fn lemma_symbol_of(&self, text: Seq<char>)
        requires
            self.wf(),
        ensures
            self.symbol_of(text) matches Some(symbol) ==> self.has_symbol(symbol) && self.text_of(
                symbol,
            ) == text,
            self.symbol_of(text) is Some <==> self@.contains(text),
    {
        if self@.contains(text) {
            let i = self@.index_of(text);
            Symbol::lemma_at_view(i as nat);
        }
    }

    /// Every handle given out is the handle of its own string.
    pub proof fn lemma_text_of(&self, symbol: Symbol)
        requires
            self.wf(),
            self.has_symbol(symbol),
        ensures
            self.symbol_of(self.text_of(symbol)) == Some(symbol),
    {
        self.lemma_wf();
        let text = self.text_of(symbol);
        assert(self@.contains(text));
        let i = self@.index_of(text);
        assert(self@[i] == self@[symbol@ as int]);
        Symbol::lemma_view_injective(symbol, Symbol::at(i as nat));
    }

    pub fn new() -> (interner: Interner)
        ensures
            interner.wf(),
            interner@ == Seq::<Seq<char>>::empty(),
    {
        let interner = Interner { names: table_new(), strings: Vec::new() };
        assert(interner@ =~= Seq::<Seq<char>>::empty());
        interner
    }

    /// The handle of `string`, if it has been interned; the table is not changed.
    pub fn lookup(&self, string: &str) -> (symbol: Option<Symbol>)
        requires
            self.wf(),
        ensures
            symbol == self.symbol_of(string@),
    {
        match table_get(&self.names, string) {
            Some(handle) => {
                proof {
                    self.lemma_wf();
                    assert(self@[handle as int] == string@);
                    assert(self@.contains(string@));
                }
                Some(Symbol::new(handle))
            },
            None => {
                proof {
                    if self@.contains(string@) {
                        let i = self@.index_of(string@);
                        assert(table_entries(self.names).dom().contains(self@[i]));
                    }
                }
                None
            },
        }
    }

    pub fn exist(&self, string: &str) -> (found: bool)
        requires
            self.wf(),
        ensures
            found == self@.contains(string@),
    {
        proof {
            self.lemma_symbol_of(string@);
        }
        self.lookup(string).is_some()
    }

    /// The handle of `string`: the one it already has, or a new one, which is the
    /// number of strings interned before it.
    pub fn intern(&mut self, string: &str) -> (symbol: Symbol)
        requires
            old(self).wf(),
            old(self)@.len() < u32::MAX,
        ensures
            final(self).wf(),
            final(self)@ == interned(old(self)@, string@),
            final(self).symbol_of(string@) == Some(symbol),
            symbol@ == position(old(self)@, string@),
    {
        proof {
            self.lemma_symbol_of(string@);
            self.lemma_wf();
        }
        if let Some(name) = self.lookup(string) {
            proof {
                Symbol::lemma_at_view(self@.index_of(string@) as nat);
            }
            return name;
        }
        let count = self.strings.len();
        let name = Symbol::new(count as u32);
        let ghost before = self@;
        let ghost entries = table_entries(self.names);
        self.strings.push(String::from_str(string));
        table_insert(&mut self.names, String::from_str(string), count as u32);
        proof {
            assert(self@ =~= before.push(string@));
            assert forall|i: int| 0 <= i < self@.len() implies table_entries(self.names).dom().contains(
                #[trigger] self@[i],
            ) && table_entries(self.names)[self@[i]] == i by {
                if i < before.len() {
                    assert(self@[i] == before[i]);
                    assert(entries.dom().contains(before[i]));
                }
            }
            assert forall|text: Seq<char>| #[trigger]
                table_entries(self.names).dom().contains(text) implies table_entries(
                self.names,
            )[text] < self@.len() && self@[table_entries(self.names)[text] as int] == text by {
                if text != string@ {
                    assert(entries.dom().contains(text));
                }
            }
            assert(self@[count as int] == string@);
            assert(self@.contains(string@));
            assert forall|i: int| 0 <= i < self@.len() && self@[i] == string@ implies i == count by {
                if i < before.len() {
                    assert(before[i] == string@);
                    assert(before.contains(string@));
                }
            }
            Symbol::lemma_view_injective(name, Symbol::at(self@.index_of(string@) as nat));
            Symbol::lemma_at_view(self@.index_of(string@) as nat);
        }
        name
    }

    /// The string behind a handle that this interner has given out.
    pub fn get(&self, symbol: Symbol) -> (text: &str)
        requires
            self.has_symbol(symbol),
        ensures
            text@ == self.text_of(symbol),
    {
        self.strings[symbol.0 as usize].as_str()
    }

    /// The number of strings interned so far.
    pub fn len(&self) -> (len: usize)
        ensures
            len == self@.len(),
    {
        self.strings.len()
    }

    /// Whether `symbol` is a handle that this interner has given out.
    pub fn holds(&self, symbol: Symbol) -> (held: bool)
        ensures
            held == self.has_symbol(symbol),
    {
        (symbol.0 as usize) < self.strings.len()
    }

    /// The string behind `symbol`, and `None` for a handle that this interner
    /// has not given out.
    pub fn resolve(&self, symbol: Symbol) -> (text: Option<&str>)
        ensures
            match text {
                Some(text) => self.has_symbol(symbol) && text@ == self.text_of(symbol),
                None => !self.has_symbol(symbol),
            },
    {
        if self.holds(symbol) {
            Some(self.get(symbol))
        } else {
            None
        }
    }

    /// As `intern`, but `None` when `string` is new and no handle is left for
    /// it; the table is then unchanged.
    pub fn try_intern(&mut self, string: &str) -> (symbol: Option<Symbol>)
        requires
            old(self).wf(),
        ensures
            final(self).wf(),
            match symbol {
                Some(symbol) => {
                    &&& final(self)@ == interned(old(self)@, string@)
                    &&& final(self).symbol_of(string@) == Some(symbol)
                    &&& symbol@ == position(old(self)@, string@)
                },
                None => {
                    &&& final(self)@ == old(self)@
                    &&& !old(self)@.contains(string@)
                    &&& old(self)@.len() == u32::MAX
                },
            },
    {
        proof {
            self.lemma_symbol_of(string@);
            self.lemma_wf();
        }
        if self.strings.len() < u32::MAX as usize {
            Some(self.intern(string))
        } else {
            match self.lookup(string) {
                Some(name) => {
                    proof {
                        Symbol::lemma_at_view(self@.index_of(string@) as nat);
                    }
                    Some(name)
                },
                None => None,
            }
        }
    }
}

impl Default for Interner {
    fn default() -> (interner: Interner)
        ensures
            interner.wf(),
            interner@ == Seq::<Seq<char>>::empty(),
    {
        Interner::new()
    }
}

/// What one session of grammars and parsers shares: the interner that gives
/// all of them their symbols.
#[derive(Debug)]
pub struct SessionGlobals {
    symbol_interner: Interner,
}

impl SessionGlobals {
    /// The interner of the session.
    pub closed spec fn names(&self) -> &Interner {
        &self.symbol_interner
    }

    /// A session that has interned nothing yet.
    pub fn new() -> (session: SessionGlobals)
        ensures
            session.names().wf(),
            session.names()@ == Seq::<Seq<char>>::empty(),
    {
        SessionGlobals { symbol_interner: Interner::default() }
    }

    /// The interner of the session, to look symbols up and to hand to a parser.
    pub fn interner(&self) -> (interner: &Interner)
        ensures
            interner == self.names(),
    {
        &self.symbol_interner
    }

    /// The handle of `string` in the interner of the session.
    pub fn intern(&mut self, string: &str) -> (symbol: Symbol)
        requires
            old(self).names().wf(),
            old(self).names()@.len() < u32::MAX,
        ensures
            final(self).names().wf(),
            final(self).names()@ == interned(old(self).names()@, string@),
            final(self).names().symbol_of(string@) == Some(symbol),
            symbol@ == position(old(self).names()@, string@),
    {
        self.symbol_interner.intern(string)
    }
}

} // verus!
