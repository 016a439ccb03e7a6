use cyk::{
    Diagnostic, Interner, Node, NodeChildren, Parser, RuleRight, RuleRightSet, Rules, Span,
    Symbol, SymbolSet, TerminalRules, CNF,
};

const NON_TERMINALS: [&str; 10] =
    ["Number", "N1", "Integer", "Fraction", "T1", "Scale", "N2", "T2", "Digit", "Sign"];

const DIGITS: [&str; 10] = ["0", "1", "2", "3", "4", "5", "6", "7", "8", "9"];

fn symbols(interner: &mut Interner, names: &[&str]) -> SymbolSet {
    let mut set = SymbolSet::new();
    for name in names {
        set.insert(Symbol::intern(interner, name));
    }
    set
}

fn binary(interner: &mut Interner, rules: &mut Rules, left: &str, right: &[[&str; 2]]) {
    let left = Symbol::intern(interner, left);
    let mut pairs = RuleRightSet::new();
    for [first, second] in right {
        let first = Symbol::intern(interner, first);
        let second = Symbol::intern(interner, second);
        pairs.insert(RuleRight::new(first, second));
    }
    rules.insert(left, pairs);
}

fn unit(interner: &mut Interner, rules: &mut TerminalRules, left: &str, right: &[&str]) {
    let left = Symbol::intern(interner, left);
    let right = symbols(interner, right);
    rules.insert(left, right);
}

// Number -> 0 | 1 | 2 | 3 | 4 | 5 | 6 | 7 | 8 | 9
// Number -> Integer Digit
// Number -> N1 Scale | Integer Fraction
// N1 -> Integer Fraction
// Integer -> 0 | 1 | 2 | 3 | 4 | 5 | 6 | 7 | 8 | 9
// Integer -> Integer Digit
// Fraction -> T1 Integer
// T1 -> .
// Scale -> N2 Integer
// N2 -> T2 Sign
// T2 -> e
// Digit -> 0 | 1 | 2 | 3 | 4 | 5 | 6 | 7 | 8 | 9
// Sign -> + | -
fn number_grammar(interner: &mut Interner, exponent: bool) -> CNF {
    let start = Symbol::intern(interner, "Number");
    let non_terminals = symbols(interner, &NON_TERMINALS);
    let mut terminals = symbols(interner, &DIGITS);
    for name in [".", "+", "-"] {
        terminals.insert(Symbol::intern(interner, name));
    }
    if exponent {
        terminals.insert(Symbol::intern(interner, "e"));
    }

    let mut rules = Rules::new();
    binary(
        interner,
        &mut rules,
        "Number",
        &[["Integer", "Digit"], ["N1", "Scale"], ["Integer", "Fraction"]],
    );
    binary(interner, &mut rules, "N1", &[["Integer", "Fraction"]]);
    binary(interner, &mut rules, "Integer", &[["Integer", "Digit"]]);
    binary(interner, &mut rules, "Fraction", &[["T1", "Integer"]]);
    binary(interner, &mut rules, "Scale", &[["N2", "Integer"]]);
    binary(interner, &mut rules, "N2", &[["T2", "Sign"]]);

    let mut terminal_rules = TerminalRules::new();
    unit(interner, &mut terminal_rules, "Number", &DIGITS);
    unit(interner, &mut terminal_rules, "Integer", &DIGITS);
    unit(interner, &mut terminal_rules, "T1", &["."]);
    if exponent {
        unit(interner, &mut terminal_rules, "T2", &["e"]);
    }
    unit(interner, &mut terminal_rules, "Digit", &DIGITS);
    unit(interner, &mut terminal_rules, "Sign", &["+", "-"]);

    CNF::new(start, terminals, non_terminals, rules, terminal_rules).unwrap()
}

fn same_tree(a: &Node, b: &Node) -> bool {
    a.kind == b.kind
        && a.span == b.span
        && match (&a.children, &b.children) {
            (NodeChildren::Leaf, NodeChildren::Leaf) => true,
            (NodeChildren::Single(x), NodeChildren::Single(y)) => same_tree(x, y),
            (NodeChildren::Double(x1, x2), NodeChildren::Double(y1, y2)) => {
                same_tree(x1, y1) && same_tree(x2, y2)
            }
            _ => false,
        }
}

#[test]
fn it_works() {
    let mut interner = Interner::new();
    let grammar = number_grammar(&mut interner, true);
    let mut reader = Parser::new(&grammar, &interner);
    let result = reader.parse("3.51e+1");
    if let Ok(node) = result {
        assert_eq!(format!("{}", node.render(&interner)), "3.51e+1");
    } else {
        panic!("Error")
    }
}

#[test]
fn it_works_with_big() {
    let mut interner = Interner::new();
    let grammar = number_grammar(&mut interner, true);
    let mut reader = Parser::new(&grammar, &interner);
    let result = reader.parse("3800909090.590900901e+1231231321");
    if let Ok(node) = result {
        assert_eq!(format!("{}", node.render(&interner)), "3800909090.590900901e+1231231321");
    } else {
        panic!("Error")
    }
}

#[test]
fn it_work_with_long() {
    let mut interner = Interner::new();
    let grammar = number_grammar(&mut interner, true);
    println!("{:?}", grammar);
    let mut reader = Parser::new(&grammar, &interner);
    match reader.parse("12345678901234567890123456789012345678901234567890123456789012345678901234567890.12345678901234567890123456789012345678901234567890123456789012345678901234567890e+12345678901234567890123456789012345678901234567890123456789012345678901234567890") {
        Ok(node) => {
            assert_eq!(format!("{}", node.render(&interner)), "12345678901234567890123456789012345678901234567890123456789012345678901234567890.12345678901234567890123456789012345678901234567890123456789012345678901234567890e+12345678901234567890123456789012345678901234567890123456789012345678901234567890");
        }
        Err(_unknowns) => {
            panic!("Error")
        },
    }
}

#[test]
fn number_tree_has_the_start_symbol_over_the_whole_input() {
    let mut interner = Interner::new();
    let grammar = number_grammar(&mut interner, true);
    let number = interner.lookup("Number").unwrap();
    let mut reader = Parser::new(&grammar, &interner);
    let node = reader.parse("3.51e+1").unwrap();
    assert_eq!(node.kind, number);
    assert_eq!(node.span, Span::new(0, 7));
    match &node.children {
        NodeChildren::Double(left, right) => {
            assert_eq!(left.kind, interner.lookup("N1").unwrap());
            assert_eq!(left.span, Span::new(0, 4));
            assert_eq!(left.render(&interner), "3.51");
            assert_eq!(right.kind, interner.lookup("Scale").unwrap());
            assert_eq!(right.span, Span::new(4, 3));
            assert_eq!(right.render(&interner), "e+1");
        }
        _ => panic!("the root joins two nodes"),
    }
}

#[test]
fn single_digit_is_a_unit_node_over_a_leaf() {
    let mut interner = Interner::new();
    let grammar = number_grammar(&mut interner, true);
    let mut reader = Parser::new(&grammar, &interner);
    let node = reader.parse("7").unwrap();
    assert_eq!(node.kind, interner.lookup("Number").unwrap());
    assert_eq!(node.span, Span::new(0, 1));
    match &node.children {
        NodeChildren::Single(child) => {
            assert_eq!(child.kind, interner.lookup("7").unwrap());
            assert_eq!(child.span, Span::new(0, 1));
            assert!(matches!(child.children, NodeChildren::Leaf));
        }
        _ => panic!("a character is derived by a unit rule"),
    }
    assert_eq!(node.render(&interner), "7");
}

#[test]
fn missing_exponent_terminal_is_reported_at_its_position() {
    let mut interner = Interner::new();
    let grammar = number_grammar(&mut interner, false);
    let mut reader = Parser::new(&grammar, &interner);
    let unknowns = reader.parse("3.51e+1").unwrap_err();
    assert_eq!(unknowns, vec![Diagnostic::new('e', Span::new(4, 1))]);
    assert_eq!(unknowns[0].character(), 'e');
    assert_eq!(unknowns[0].span().start(), 4);
    assert_eq!(unknowns[0].span().len(), 1);
}

#[test]
fn every_unknown_character_is_reported_in_input_order() {
    let mut interner = Interner::new();
    let grammar = number_grammar(&mut interner, true);
    let mut reader = Parser::new(&grammar, &interner);
    let unknowns = reader.parse("x1y2.z").unwrap_err();
    assert_eq!(
        unknowns,
        vec![
            Diagnostic::new('x', Span::new(0, 1)),
            Diagnostic::new('y', Span::new(2, 1)),
            Diagnostic::new('z', Span::new(5, 1)),
        ]
    );
}

#[test]
fn character_that_is_interned_but_has_no_rule_is_reported() {
    let mut interner = Interner::new();
    let grammar = number_grammar(&mut interner, true);
    // "N" is no symbol of the grammar, but "e" without a rule would be.
    let without = number_grammar(&mut interner, false);
    assert!(interner.exist("e"));
    let mut reader = Parser::new(&without, &interner);
    let unknowns = reader.parse("1e").unwrap_err();
    assert_eq!(unknowns, vec![Diagnostic::new('e', Span::new(1, 1))]);
    let mut reader = Parser::new(&grammar, &interner);
    assert!(reader.parse("1.0e+1").is_ok());
}

#[test]
fn clean_characters_without_a_derivation_fail_with_no_diagnostic() {
    let mut interner = Interner::new();
    let grammar = number_grammar(&mut interner, true);
    let mut reader = Parser::new(&grammar, &interner);
    assert_eq!(reader.parse("3.").unwrap_err(), vec![]);
    assert_eq!(reader.parse("e+1").unwrap_err(), vec![]);
    assert_eq!(reader.parse("+").unwrap_err(), vec![]);
    assert_eq!(reader.parse("1e1").unwrap_err(), vec![]);
}

#[test]
fn empty_input_fails_with_no_diagnostic() {
    let mut interner = Interner::new();
    let grammar = number_grammar(&mut interner, true);
    let mut reader = Parser::new(&grammar, &interner);
    assert_eq!(reader.parse("").unwrap_err(), vec![]);
    assert_eq!(reader.parse("").unwrap_err(), vec![]);
}

#[test]
fn parsing_twice_gives_the_same_tree() {
    let mut interner = Interner::new();
    let grammar = number_grammar(&mut interner, true);
    let mut reader = Parser::new(&grammar, &interner);
    let first = reader.parse("12.5e-3").unwrap();
    let second = reader.parse("12.5e-3").unwrap();
    assert!(same_tree(&first, &second));
    let mut other = Parser::new(&grammar, &interner);
    let third = other.parse("12.5e-3").unwrap();
    assert!(same_tree(&first, &third));
    assert_eq!(first.render(&interner), "12.5e-3");
}

#[test]
fn parser_can_be_used_again_after_a_failure() {
    let mut interner = Interner::new();
    let grammar = number_grammar(&mut interner, true);
    let mut reader = Parser::new(&grammar, &interner);
    assert_eq!(reader.parse("4?").unwrap_err(), vec![Diagnostic::new('?', Span::new(1, 1))]);
    let node = reader.parse("42").unwrap();
    assert_eq!(node.render(&interner), "42");
    assert_eq!(reader.parse("4?2").unwrap_err(), vec![Diagnostic::new('?', Span::new(1, 1))]);
}

#[test]
fn characters_outside_ascii_are_counted_one_by_one() {
    let mut interner = Interner::new();
    let grammar = number_grammar(&mut interner, true);
    let mut reader = Parser::new(&grammar, &interner);
    let unknowns = reader.parse("1é2").unwrap_err();
    assert_eq!(unknowns, vec![Diagnostic::new('é', Span::new(1, 1))]);
}
