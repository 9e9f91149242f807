use ready_set_boole::BooleanTree;
use ready_set_boole::ParseError;

#[test]
fn test_is_nnf() {
    assert!(!BooleanTree::new("A!!", true).unwrap().is_nnf());
    assert!(BooleanTree::new("A", true).unwrap().is_nnf());

    assert!(!BooleanTree::new("A!!!", true).unwrap().is_nnf());
    assert!(BooleanTree::new("A!", true).unwrap().is_nnf());

    assert!(!BooleanTree::new("AB>", true).unwrap().is_nnf());
    assert!(BooleanTree::new("A!B|", true).unwrap().is_nnf());

    assert!(!BooleanTree::new("AB=", true).unwrap().is_nnf());
    assert!(BooleanTree::new("AB&A!B!&|", true).unwrap().is_nnf());

    assert!(!BooleanTree::new("AB|!", true).unwrap().is_nnf());
    assert!(BooleanTree::new("A!B!&", true).unwrap().is_nnf());

    assert!(!BooleanTree::new("AB&!", true).unwrap().is_nnf());
    assert!(BooleanTree::new("A!B!|", true).unwrap().is_nnf());

    assert!(!BooleanTree::new("AB|C&!", true).unwrap().is_nnf());
    assert!(BooleanTree::new("A!B!&C!|", true).unwrap().is_nnf());
}

#[test]
fn test_make_nnf() {
    let formulas = vec![
        "A",
        "A!",
        "A!!",
        "A!!!",
        "A!!!!",
        "A!!!!!",
        "A!!!!!!",
        "AB>",
        "A!B|",
        "AB=",
        "AB&A!B!&|",
        "AB|!",
        "A!B!&",
        "AB&!",
        "A!B!|",
        "AB|C&!",
        "A!B!&C!|",
        "AB|C&!D!&",
        "ABCDE>>>>",
        "ABCDE====",
        "ABCDE^^^^",
        "A!B!!C!!!D!!!!E!!!!!>>>>",
        "A!B!!C!!!D!!!!E!!!!!====",
        "A!B!!C!!!D!!!!E!!!!!^^^^",
    ];
    for formula in formulas {
        let mut bt = BooleanTree::new(formula, true).unwrap();
        let initial_formula = bt.to_formula();
        let truth_table_before = bt.compute_truth_table();
        bt.make_nnf();
        assert!(
            bt.is_nnf(),
            "{:?}.to_nnf() = {:?} is not in negation normal form",
            initial_formula,
            bt.to_formula()
        );
        let truth_table_after = bt.compute_truth_table();
        assert!(
            truth_table_before == truth_table_after,
            "{:?} (before) and {:?} (after) do not have the same truth table",
            initial_formula,
            bt.to_formula()
        );
    }
}

#[test]
fn test_is_cnf() {
    assert!(!BooleanTree::new("ABCD&|&", true).unwrap().is_cnf());
    assert!(BooleanTree::new("ABC|BD|&&", true).unwrap().is_cnf());

    assert!(!BooleanTree::new("AB&!", true).unwrap().is_cnf());
    assert!(BooleanTree::new("A!B!|", true).unwrap().is_cnf());

    assert!(!BooleanTree::new("AB|!", true).unwrap().is_cnf());
    assert!(BooleanTree::new("A!B!&", true).unwrap().is_cnf());

    assert!(BooleanTree::new("AB|C&", true).unwrap().is_cnf());

    assert!(BooleanTree::new("AB|C|D|", true).unwrap().is_cnf());
    assert!(BooleanTree::new("ABCD|||", true).unwrap().is_cnf());

    assert!(BooleanTree::new("AB&C&D&", true).unwrap().is_cnf());
    assert!(BooleanTree::new("ABCD&&&", true).unwrap().is_cnf());

    assert!(!BooleanTree::new("AB&!C!|", true).unwrap().is_cnf());
    assert!(BooleanTree::new("A!B!C!||", true).unwrap().is_cnf());

    assert!(!BooleanTree::new("AB|!C!&", true).unwrap().is_cnf());
    assert!(BooleanTree::new("A!B!C!&&", true).unwrap().is_cnf());

    assert!(BooleanTree::new("ABC||DEF||&", true).unwrap().is_cnf());
    assert!(!BooleanTree::new("ABC&&DEF&&|", true).unwrap().is_cnf());
}

#[test]
fn test_make_cnf() {
    let formulas = vec![
        "A",
        "A!",
        "A!!",
        "A!!!",
        "A!!!!",
        "A!!!!!",
        "A!!!!!!",
        "AB>",
        "A!B|",
        "AB=",
        "AB&A!B!&|",
        "AB|!",
        "A!B!&",
        "AB&!",
        "A!B!|",
        "AB|C&!",
        "A!B!&C!|",
        "AB|C&!D!&",
        "ABCDE>>>>",
        "ABCDE====",
        "ABCDE^^^^",
        "AB&CD&|EF&GH&||",
        "ABCDE&&&|",
        "A!B!!C!!!D!!!!E!!!!!>>>>",
        "A!B!!C!!!D!!!!E!!!!!====",
        "A!B!!C!!!D!!!!E!!!!!^^^^",
        "AB&CD&|",
        "AC>BCD&&!&",
    ];
    for formula in formulas {
        let mut bt = BooleanTree::new(formula, true).unwrap();
        let initial_formula = bt.to_formula();
        let truth_table_before = bt.compute_truth_table();
        bt.make_cnf();
        assert!(
            bt.is_cnf(),
            "{:?}.to_cnf() = {:?} is not in conjunctive normal form",
            initial_formula,
            bt.to_formula()
        );
        let truth_table_after = bt.compute_truth_table();
        assert!(
            truth_table_before == truth_table_after,
            "{:?} (before) and {:?} (after) do not have the same truth table",
            initial_formula,
            bt.to_formula()
        );
    }
}

#[test]
fn test_build_errors() {
    assert!(matches!(BooleanTree::new("", true), Err(ParseError::EmptyFormula)));
    assert!(matches!(BooleanTree::new("!1", true), Err(ParseError::MissingOperand)));
    assert!(matches!(BooleanTree::new("10||", true), Err(ParseError::MissingOperands)));
    assert!(matches!(BooleanTree::new("111|", true), Err(ParseError::DanglingOperators)));
    assert!(matches!(BooleanTree::new("42&", false), Err(ParseError::InvalidToken)));
    assert!(matches!(BooleanTree::new("a", true), Err(ParseError::InvalidToken)));
    assert!(matches!(BooleanTree::new("A", false), Err(ParseError::InvalidToken)));
}

#[test]
fn test_to_formula_round_trip() {
    let formulas = vec!["0", "1", "A", "AB>", "AB&A!B!&|", "AB|C&!D!&", "ABCDE^^^^"];
    for formula in formulas {
        let tree = BooleanTree::new(formula, true).unwrap();
        assert_eq!(tree.to_formula(), formula);
        let reparsed = BooleanTree::new(&tree.to_formula(), true).unwrap();
        assert!(tree.compute_truth_table() == reparsed.compute_truth_table());
    }
}

#[test]
fn test_evaluate() {
    assert_eq!(BooleanTree::new("10|", false).unwrap().evaluate(), Ok(true));
    assert_eq!(BooleanTree::new("10&", false).unwrap().evaluate(), Ok(false));
    assert_eq!(
        BooleanTree::new("A", true).unwrap().evaluate(),
        Err(ParseError::UnboundVariable('A'))
    );
    assert_eq!(BooleanTree::new("1A|", true).unwrap().evaluate(), Ok(true));
}

#[test]
fn test_is_satisfiable() {
    assert!(BooleanTree::new("AB|", true).unwrap().is_satisfiable());
    assert!(!BooleanTree::new("AA!&", true).unwrap().is_satisfiable());
    assert!(!BooleanTree::new("0", true).unwrap().is_satisfiable());
}
