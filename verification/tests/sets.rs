use ready_set_boole::ParseError;
use ready_set_boole::sets::eval_set;
use ready_set_boole::sets::powerset;

#[test]
fn sets_test_powerset() {
    assert_eq!(powerset(vec![]), vec![vec![]]);
    assert_eq!(powerset(vec![42]), vec![vec![], vec![42]]);
    assert_eq!(
        powerset(vec![1, 2, 3]),
        vec![
            vec![],
            vec![3],
            vec![2],
            vec![2, 3],
            vec![1,],
            vec![1, 3],
            vec![1, 2],
            vec![1, 2, 3],
        ]
    );
}

#[test]
fn test_eval_one_set() {
    assert_eq!(eval_set("A", vec![vec![0, 1, 2]]).unwrap(), vec![0, 1, 2]);
    assert_eq!(eval_set("A!", vec![vec![0, 1, 2]]).unwrap(), vec![]);
    assert_eq!(
        eval_set("A!", vec![vec![0, 1, 2], vec![2, 3, 4]]).unwrap(),
        vec![3, 4]
    );
    assert_eq!(eval_set("A!!", vec![vec![0, 1, 2]]).unwrap(), vec![0, 1, 2]);
}

#[test]
fn test_eval_two_sets() {
    assert_eq!(
        eval_set("AB|", vec![vec![0, 1, 2], vec![0, 3, 4]]).unwrap(),
        [0, 1, 2, 3, 4]
    );
    assert_eq!(eval_set("AB&", vec![vec![0, 1, 2], vec![0, 3, 4]]).unwrap(), [0]);
    assert_eq!(
        eval_set("AB^", vec![vec![0, 1, 2], vec![0, 3, 4]]).unwrap(),
        [1, 2, 3, 4]
    );
    assert_eq!(eval_set("AB=", vec![vec![0, 1, 2], vec![0, 3, 4]]).unwrap(), [0]);
    assert_eq!(
        eval_set("AB>", vec![vec![0, 1, 2], vec![0, 3, 4]]).unwrap(),
        [0, 3, 4]
    );
    assert_eq!(
        eval_set("BC>", vec![vec![], vec![0, 1, 2], vec![0, 3, 4]]).unwrap(),
        [0, 3, 4]
    );
}

#[test]
fn test_eval_three_sets() {
    let sets = vec![vec![1, 2], vec![2, 3], vec![3, 4]];
    assert_eq!(eval_set("ABC&&", sets.clone()).unwrap(), []);
    assert_eq!(eval_set("ABC||", sets.clone()).unwrap(), [1, 2, 3, 4]);
    assert_eq!(eval_set("ABC|&", sets.clone()).unwrap(), [2]);
    assert_eq!(eval_set("ABC&|", sets.clone()).unwrap(), [1, 2, 3]);
    assert_eq!(eval_set("ABC^^", sets.clone()).unwrap(), [1, 4]);
    assert_eq!(eval_set("ABC==", sets.clone()).unwrap(), [1, 4]);
    assert_eq!(eval_set("ABC=^", sets.clone()).unwrap(), [2, 3]);
    assert_eq!(eval_set("ABC^=", sets.clone()).unwrap(), [2, 3]);
    assert_eq!(eval_set("ABC>>", sets.clone()).unwrap(), [1, 3, 4]);
}

#[test]
fn test_eval_set_errors() {
    assert!(matches!(eval_set("", vec![]), Err(ParseError::EmptyFormula)));
    assert!(matches!(eval_set("!A", vec![vec![]]), Err(ParseError::MissingOperand)));
    assert!(matches!(eval_set("01&", vec![]), Err(ParseError::InvalidToken)));
    assert!(matches!(
        eval_set("AB||", vec![vec![1, 2], vec![3, 4]]),
        Err(ParseError::MissingOperands)
    ));
    assert!(matches!(eval_set("AAA|", vec![vec![42]]), Err(ParseError::DanglingOperators)));
    assert!(matches!(
        eval_set("ABC&&", vec![vec![1, 2, 3], vec![3, 4, 5]]),
        Err(ParseError::UndefinedSet)
    ));
}
