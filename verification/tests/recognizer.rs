use earley::engine::{push_unique, recognize};
use earley::fixture::{parse, FactorSumGrammar, FactorSumTerminal, NestGrammar};
use earley::grammar::{Grammar, Item, Rule, RuleAtom, Terminal};

#[test]
fn it_works() {
    let test = b"1+(2*3-4)";
    assert!(parse(test));
}

#[test]
fn rejects_unbalanced_parenthesis() {
    assert!(!parse(b"1+(2*3-4"));
}

#[test]
fn rejects_empty_input() {
    assert!(!parse(b""));
}

#[test]
fn accepts_single_digit() {
    assert!(parse(b"5"));
}

#[test]
fn accepts_multi_digit_number() {
    assert!(parse(b"12+3"));
}

#[test]
fn rejects_leading_operator() {
    assert!(!parse(b"+1"));
}

#[test]
fn accepts_division_and_nesting() {
    assert!(parse(b"8/4"));
    assert!(parse(b"(1)"));
    assert!(parse(b"((2))*3"));
}

#[test]
fn rejects_trailing_operator_and_garbage() {
    assert!(!parse(b"1+"));
    assert!(!parse(b"1+a"));
    assert!(!parse(b"()"));
    assert!(!parse(b"1 + 2"));
}

#[test]
fn recognize_other_start_symbols() {
    assert!(recognize(FactorSumGrammar::Number, b"123"));
    assert!(!recognize(FactorSumGrammar::Number, b"1+2"));
    assert!(recognize(FactorSumGrammar::Factor, b"(1+2)"));
    assert!(!recognize(FactorSumGrammar::Sum, b"(1+2"));
}

#[test]
fn advance_moves_dot_only() {
    let rule = Rule::new(FactorSumGrammar::Sum, 0);
    let item = Item::new(rule, 0, 7);
    let advanced = item.incr();
    assert_eq!(advanced.dot, 1);
    assert_eq!(advanced.start, 7);
    assert_eq!(advanced.rule.gram, FactorSumGrammar::Sum);
    assert_eq!(advanced.rule.idx, 0);
    assert_eq!(item.dot, 0);
    let advanced_again = advanced.incr();
    assert_eq!(advanced_again.dot, 2);
    assert_eq!(advanced_again.start, 7);
}

#[test]
fn push_unique_keeps_sets_duplicate_free() {
    let mut set: Vec<Item<FactorSumGrammar>> = Vec::new();
    let item = Item::new(Rule::new(FactorSumGrammar::Sum, 0), 1, 0);
    assert!(push_unique(&mut set, item));
    assert_eq!(set.len(), 1);
    assert!(!push_unique(&mut set, item));
    assert_eq!(set.len(), 1);
    let other = Item::new(Rule::new(FactorSumGrammar::Sum, 0), 2, 0);
    assert!(push_unique(&mut set, other));
    assert_eq!(set.len(), 2);
    assert!(!push_unique(&mut set, item));
    assert!(!push_unique(&mut set, other));
    assert_eq!(set.len(), 2);
}

#[test]
fn terminal_classes_match_expected_bytes() {
    assert!(FactorSumTerminal::AddSub.test(b'+'));
    assert!(FactorSumTerminal::AddSub.test(b'-'));
    assert!(!FactorSumTerminal::AddSub.test(b'*'));
    assert!(FactorSumTerminal::MulDiv.test(b'*'));
    assert!(FactorSumTerminal::MulDiv.test(b'/'));
    assert!(!FactorSumTerminal::MulDiv.test(b'+'));
    assert!(FactorSumTerminal::Digit.test(b'0'));
    assert!(FactorSumTerminal::Digit.test(b'9'));
    assert!(!FactorSumTerminal::Digit.test(b'a'));
    assert!(FactorSumTerminal::Lp.test(b'('));
    assert!(!FactorSumTerminal::Lp.test(b')'));
    assert!(FactorSumTerminal::Rp.test(b')'));
}

#[test]
fn rule_delegates_to_its_grammar() {
    let sum0 = Rule::new(FactorSumGrammar::Sum, 0);
    assert_eq!(sum0.len(), 3);
    assert!(matches!(sum0.getatom(0), RuleAtom::Grammar(FactorSumGrammar::Sum)));
    assert!(matches!(sum0.getatom(1), RuleAtom::Terminal(FactorSumTerminal::AddSub)));
    assert!(matches!(sum0.getatom(2), RuleAtom::Grammar(FactorSumGrammar::Product)));
    let number1 = Rule::new(FactorSumGrammar::Number, 1);
    assert_eq!(number1.len(), 1);
    assert!(matches!(number1.getatom(0), RuleAtom::Terminal(FactorSumTerminal::Digit)));
}

#[test]
fn grammar_tables_are_as_written() {
    assert_eq!(FactorSumGrammar::Sum.variants(), 2);
    assert_eq!(FactorSumGrammar::Product.variants(), 2);
    assert_eq!(FactorSumGrammar::Factor.variants(), 2);
    assert_eq!(FactorSumGrammar::Number.variants(), 2);
    assert_eq!(FactorSumGrammar::Sum.len(0), 3);
    assert_eq!(FactorSumGrammar::Sum.len(1), 1);
    assert_eq!(FactorSumGrammar::Number.len(0), 2);
    assert_eq!(FactorSumGrammar::Number.len(1), 1);
    assert!(matches!(
        FactorSumGrammar::Factor.getatom(0, 0),
        RuleAtom::Terminal(FactorSumTerminal::Lp)
    ));
    assert!(matches!(
        FactorSumGrammar::Factor.getatom(0, 2),
        RuleAtom::Terminal(FactorSumTerminal::Rp)
    ));
    assert!(matches!(
        FactorSumGrammar::Factor.getatom(1, 0),
        RuleAtom::Grammar(FactorSumGrammar::Number)
    ));
}

#[test]
fn longer_expressions_round_out_the_grammar() {
    assert!(parse(b"1+2*3-4/5"));
    assert!(parse(b"10*(20+30)"));
    assert!(!parse(b"1**2"));
    assert!(!parse(b"(1+2))"));
}

#[test]
fn empty_alternatives_complete_where_predicted() {
    assert!(recognize(NestGrammar::Nest, b""));
    assert!(recognize(NestGrammar::Nest, b"()"));
    assert!(recognize(NestGrammar::Nest, b"(())"));
    assert!(recognize(NestGrammar::Nest, b"((()))"));
    assert!(!recognize(NestGrammar::Nest, b"("));
    assert!(!recognize(NestGrammar::Nest, b")("));
    assert!(!recognize(NestGrammar::Nest, b"()()"));
    assert!(!recognize(NestGrammar::Nest, b"(()"));
}
