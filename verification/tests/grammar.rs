use cyk::{
    Grammar, GrammarError, Interner, Rule, RuleRight, RuleRightSet, Rules, Symbol, SymbolSet,
    TerminalRule, TerminalRules, CNF,
};

fn set_of(interner: &mut Interner, names: &[&str]) -> SymbolSet {
    let mut set = SymbolSet::new();
    for name in names {
        set.insert(interner.intern(name));
    }
    set
}

fn pairs_of(interner: &mut Interner, pairs: &[[&str; 2]]) -> RuleRightSet {
    let mut set = RuleRightSet::new();
    for [first, second] in pairs {
        let first = interner.intern(first);
        let second = interner.intern(second);
        set.insert(RuleRight::new(first, second));
    }
    set
}

fn names_of(interner: &Interner, found: Option<SymbolSet>) -> Vec<String> {
    match found {
        Some(set) => set.to_vec().into_iter().map(|s| interner.get(s).to_string()).collect(),
        None => vec![],
    }
}

// S -> A B | A C | B B
// T -> A B | C A
// S -> C C
// A -> a | x
// B -> b
// C -> a | c
struct Parts {
    start: Symbol,
    terminals: SymbolSet,
    non_terminals: SymbolSet,
    rules: Rules,
    terminal_rules: TerminalRules,
}

fn parts(interner: &mut Interner) -> Parts {
    let start = interner.intern("S");
    let non_terminals = set_of(interner, &["S", "T", "A", "B", "C"]);
    let terminals = set_of(interner, &["a", "b", "c", "x"]);
    let mut rules = Rules::new();
    let s = interner.intern("S");
    let t = interner.intern("T");
    rules.insert(s, pairs_of(interner, &[["A", "B"], ["A", "C"], ["B", "B"]]));
    rules.insert(t, pairs_of(interner, &[["A", "B"], ["C", "A"]]));
    rules.insert(s, pairs_of(interner, &[["C", "C"]]));
    let mut terminal_rules = TerminalRules::new();
    let a = interner.intern("A");
    let b = interner.intern("B");
    let c = interner.intern("C");
    terminal_rules.insert(a, set_of(interner, &["a", "x"]));
    terminal_rules.insert(b, set_of(interner, &["b"]));
    terminal_rules.insert(c, set_of(interner, &["a", "c"]));
    Parts { start, terminals, non_terminals, rules, terminal_rules }
}

fn build(p: Parts) -> Result<CNF, GrammarError> {
    CNF::new(p.start, p.terminals, p.non_terminals, p.rules, p.terminal_rules)
}

#[test]
fn consistent_grammar_is_built() {
    let mut interner = Interner::new();
    let grammar = build(parts(&mut interner)).unwrap();
    assert_eq!(grammar.start_symbol(), interner.lookup("S").unwrap());
}

#[test]
fn start_symbol_must_be_a_non_terminal() {
    let mut interner = Interner::new();
    let mut p = parts(&mut interner);
    p.start = interner.intern("a");
    assert_eq!(build(p).unwrap_err(), GrammarError::UndeclaredStart);
    let mut p = parts(&mut interner);
    p.start = interner.intern("Unknown");
    assert_eq!(build(p).unwrap_err(), GrammarError::UndeclaredStart);
}

#[test]
fn symbol_declared_as_terminal_and_non_terminal_is_refused() {
    let mut interner = Interner::new();
    let mut p = parts(&mut interner);
    p.terminals.insert(interner.intern("B"));
    assert_eq!(build(p).unwrap_err(), GrammarError::DeclaredTwice);
}

#[test]
fn left_side_must_be_a_non_terminal() {
    let mut interner = Interner::new();
    let mut p = parts(&mut interner);
    let left = interner.intern("U");
    p.rules.insert(left, pairs_of(&mut interner, &[["A", "B"]]));
    assert_eq!(build(p).unwrap_err(), GrammarError::UndeclaredLeft);

    let mut p = parts(&mut interner);
    let left = interner.intern("a");
    p.terminal_rules.insert(left, set_of(&mut interner, &["b"]));
    assert_eq!(build(p).unwrap_err(), GrammarError::UndeclaredLeft);
}

#[test]
fn right_side_must_be_declared() {
    let mut interner = Interner::new();
    let mut p = parts(&mut interner);
    let left = interner.intern("S");
    p.rules.insert(left, pairs_of(&mut interner, &[["A", "Missing"]]));
    assert_eq!(build(p).unwrap_err(), GrammarError::UndeclaredRight);

    let mut p = parts(&mut interner);
    p.rules.insert(left, pairs_of(&mut interner, &[["Missing", "A"]]));
    assert_eq!(build(p).unwrap_err(), GrammarError::UndeclaredRight);

    let mut p = parts(&mut interner);
    p.terminal_rules.insert(left, set_of(&mut interner, &["z"]));
    assert_eq!(build(p).unwrap_err(), GrammarError::UndeclaredRight);
}

#[test]
fn binary_rule_may_name_terminals() {
    let mut interner = Interner::new();
    let mut p = parts(&mut interner);
    let left = interner.intern("S");
    p.rules.insert(left, pairs_of(&mut interner, &[["a", "B"]]));
    assert!(build(p).is_ok());
}

#[test]
fn unit_rule_must_rewrite_to_a_terminal() {
    let mut interner = Interner::new();
    let mut p = parts(&mut interner);
    let left = interner.intern("S");
    p.terminal_rules.insert(left, set_of(&mut interner, &["a", "B"]));
    assert_eq!(build(p).unwrap_err(), GrammarError::UnitNotTerminal);
}

#[test]
fn first_failing_check_is_reported() {
    let mut interner = Interner::new();
    let mut p = parts(&mut interner);
    p.start = interner.intern("nowhere");
    p.terminals.insert(interner.intern("B"));
    let left = interner.intern("U");
    p.rules.insert(left, pairs_of(&mut interner, &[["A", "Missing"]]));
    assert_eq!(build(p).unwrap_err(), GrammarError::UndeclaredStart);

    let mut p = parts(&mut interner);
    p.terminals.insert(interner.intern("B"));
    p.rules.insert(left, pairs_of(&mut interner, &[["A", "Missing"]]));
    assert_eq!(build(p).unwrap_err(), GrammarError::DeclaredTwice);

    let mut p = parts(&mut interner);
    p.rules.insert(left, pairs_of(&mut interner, &[["A", "Missing"]]));
    assert_eq!(build(p).unwrap_err(), GrammarError::UndeclaredLeft);
}

#[test]
fn declarations_are_queried() {
    let mut interner = Interner::new();
    let grammar = build(parts(&mut interner)).unwrap();
    let s = interner.lookup("S").unwrap();
    let a = interner.lookup("a").unwrap();
    let other = interner.intern("other");
    assert!(grammar.is_non_terminal(s));
    assert!(!grammar.is_terminal(s));
    assert!(grammar.is_terminal(a));
    assert!(!grammar.is_non_terminal(a));
    assert!(grammar.exist(s));
    assert!(grammar.exist(a));
    assert!(!grammar.exist(other));
    assert!(!grammar.is_terminal(other));
    assert!(!grammar.is_non_terminal(other));
}

#[test]
fn unit_parents_are_the_left_sides_in_rule_order() {
    let mut interner = Interner::new();
    let grammar = build(parts(&mut interner)).unwrap();
    let look = |name: &str| interner.lookup(name).unwrap();
    assert_eq!(names_of(&interner, grammar.derive_single(look("a"))), ["A", "C"]);
    assert_eq!(names_of(&interner, grammar.derive_single(look("b"))), ["B"]);
    assert_eq!(names_of(&interner, grammar.derive_single(look("c"))), ["C"]);
    assert_eq!(names_of(&interner, grammar.derive_single(look("x"))), ["A"]);
    assert!(grammar.derive_single(look("S")).is_none());
    assert!(grammar.derive_single(look("A")).is_none());
}

#[test]
fn binary_parents_are_the_left_sides_in_rule_order() {
    let mut interner = Interner::new();
    let grammar = build(parts(&mut interner)).unwrap();
    let look = |name: &str| interner.lookup(name).unwrap();
    assert_eq!(names_of(&interner, grammar.derive(look("A"), look("B"))), ["S", "T"]);
    assert_eq!(names_of(&interner, grammar.derive(look("A"), look("C"))), ["S"]);
    assert_eq!(names_of(&interner, grammar.derive(look("C"), look("A"))), ["T"]);
    assert_eq!(names_of(&interner, grammar.derive(look("C"), look("C"))), ["S"]);
    assert_eq!(names_of(&interner, grammar.derive(look("B"), look("B"))), ["S"]);
    assert!(grammar.derive(look("B"), look("A")).is_none());
    assert!(grammar.derive(look("A"), look("A")).is_none());
    assert!(grammar.derive(look("a"), look("b")).is_none());
}

#[test]
fn successors_are_the_second_symbols_each_once() {
    let mut interner = Interner::new();
    let grammar = build(parts(&mut interner)).unwrap();
    let look = |name: &str| interner.lookup(name).unwrap();
    assert_eq!(names_of(&interner, grammar.follow(look("A"))), ["B", "C"]);
    assert_eq!(names_of(&interner, grammar.follow(look("B"))), ["B"]);
    assert_eq!(names_of(&interner, grammar.follow(look("C"))), ["A", "C"]);
    assert!(grammar.follow(look("S")).is_none());
    assert!(grammar.follow(look("a")).is_none());
}

#[test]
fn first_symbols_are_taken_from_all_rules_of_the_left_side() {
    let mut interner = Interner::new();
    let grammar = build(parts(&mut interner)).unwrap();
    let look = |name: &str| interner.lookup(name).unwrap();
    assert_eq!(names_of(&interner, grammar.first(look("S"))), ["A", "B", "C"]);
    assert_eq!(names_of(&interner, grammar.first(look("T"))), ["A", "C"]);
    assert!(grammar.first(look("A")).is_none());
    assert!(grammar.first(look("a")).is_none());
}

#[test]
fn every_parent_pair_passes_the_successor_test() {
    let mut interner = Interner::new();
    let grammar = build(parts(&mut interner)).unwrap();
    let names = ["S", "T", "A", "B", "C", "a", "b", "c", "x"];
    for base in names {
        for suffix in names {
            let base = interner.lookup(base).unwrap();
            let suffix = interner.lookup(suffix).unwrap();
            if grammar.derive(base, suffix).is_some() {
                assert!(grammar.follow(base).unwrap().contains(&suffix));
            }
        }
    }
}

#[test]
fn rule_answers_for_its_own_right_sides() {
    let mut interner = Interner::new();
    let s = interner.intern("S");
    let right = pairs_of(&mut interner, &[["A", "B"], ["A", "C"], ["B", "B"], ["A", "B"]]);
    assert_eq!(right.len(), 3);
    let rule = Rule::new(s, right);
    let look = |name: &str| interner.lookup(name).unwrap();
    assert_eq!(rule.start(), s);
    assert!(rule.start_with(s));
    assert!(!rule.start_with(look("A")));
    assert_eq!(names_of(&interner, rule.first()), ["A", "B"]);
    assert_eq!(rule.follow(look("A")), Some(vec![look("B"), look("C")]));
    assert_eq!(rule.follow(look("B")), Some(vec![look("B")]));
    assert_eq!(rule.follow(look("C")), None);
    assert_eq!(rule.derive(look("A"), look("C")), Some(s));
    assert_eq!(rule.derive(look("B"), look("B")), Some(s));
    assert_eq!(rule.derive(look("C"), look("A")), None);
    assert_eq!(rule.derive(look("B"), look("A")), None);
}

#[test]
fn rule_without_right_sides_answers_nothing() {
    let mut interner = Interner::new();
    let s = interner.intern("S");
    let rule = Rule::new(s, RuleRightSet::new());
    assert!(rule.first().is_none());
    assert_eq!(rule.follow(s), None);
    assert_eq!(rule.derive(s, s), None);
}

#[test]
fn rules_collect_over_all_rules() {
    let mut interner = Interner::new();
    let p = parts(&mut interner);
    let look = |name: &str| interner.lookup(name).unwrap();
    assert_eq!(names_of(&interner, p.rules.first(look("S"))), ["A", "B", "C"]);
    assert_eq!(names_of(&interner, p.rules.follow(look("C"))), ["A", "C"]);
    assert_eq!(names_of(&interner, p.rules.derive(look("A"), look("B"))), ["S", "T"]);
    assert!(Rules::new().first(look("S")).is_none());
    assert!(Rules::default().follow(look("S")).is_none());
    assert!(Rules::new().derive(look("A"), look("B")).is_none());
}

#[test]
fn terminal_rules_find_the_left_sides() {
    let mut interner = Interner::new();
    let p = parts(&mut interner);
    let look = |name: &str| interner.lookup(name).unwrap();
    assert_eq!(names_of(&interner, p.terminal_rules.derive(look("a"))), ["A", "C"]);
    assert!(p.terminal_rules.derive(look("B")).is_none());
    assert!(TerminalRules::new().derive(look("a")).is_none());
    assert!(TerminalRules::default().derive(look("a")).is_none());

    let a = look("A");
    let rule = TerminalRule::new(a, set_of(&mut interner, &["a", "x"]));
    assert_eq!(rule.start(), a);
    assert_eq!(rule.derive(interner.lookup("x").unwrap()), Some(a));
    assert_eq!(rule.derive(interner.lookup("b").unwrap()), None);
}

#[test]
fn left_side_named_twice_is_one_parent() {
    let mut interner = Interner::new();
    let s = interner.intern("S");
    let mut rules = Rules::new();
    rules.insert(s, pairs_of(&mut interner, &[["A", "B"]]));
    rules.insert(s, pairs_of(&mut interner, &[["A", "B"], ["A", "A"]]));
    let a = interner.lookup("A").unwrap();
    let b = interner.lookup("B").unwrap();
    assert_eq!(rules.derive(a, b).unwrap().to_vec(), vec![s]);
    assert_eq!(rules.follow(a).unwrap().to_vec(), vec![b, a]);
    assert_eq!(rules.first(s).unwrap().to_vec(), vec![a]);
}

#[test]
fn symbol_set_keeps_each_symbol_once_in_order() {
    let mut interner = Interner::new();
    let a = interner.intern("a");
    let b = interner.intern("b");
    let c = interner.intern("c");
    let mut set = SymbolSet::new();
    assert!(set.is_empty());
    assert_eq!(set.len(), 0);
    assert!(set.insert(b));
    assert!(set.insert(a));
    assert!(!set.insert(b));
    assert_eq!(set.len(), 2);
    assert!(!set.is_empty());
    assert!(set.contains(&a));
    assert!(!set.contains(&c));
    assert_eq!(set.get(0), Some(b));
    assert_eq!(set.get(1), Some(a));
    assert_eq!(set.get(2), None);
    assert_eq!(set.to_vec(), vec![b, a]);

    let mut other = SymbolSet::new();
    other.insert(c);
    other.insert(a);
    set.extend(&other);
    assert_eq!(set.to_vec(), vec![b, a, c]);
    set.extend_from_vec(&vec![a, a, b]);
    assert_eq!(set.to_vec(), vec![b, a, c]);
    let copy = set.clone();
    assert_eq!(copy.to_vec(), vec![b, a, c]);
}

#[test]
fn rule_right_set_keeps_each_pair_once_in_order() {
    let mut interner = Interner::new();
    let a = interner.intern("a");
    let b = interner.intern("b");
    let mut set = RuleRightSet::new();
    assert!(set.is_empty());
    assert!(set.insert(RuleRight::new(a, b)));
    assert!(set.insert(RuleRight::new(b, a)));
    assert!(!set.insert(RuleRight::new(a, b)));
    assert_eq!(set.len(), 2);
    assert!(set.contains(&RuleRight::new(b, a)));
    assert!(!set.contains(&RuleRight::new(a, a)));
    assert_eq!(set.get(0), Some(RuleRight::new(a, b)));
    assert_eq!(set.get(1), Some(RuleRight::new(b, a)));
    assert_eq!(set.get(2), None);
    assert_eq!(set.clone().len(), 2);
}
